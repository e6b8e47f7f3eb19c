//! Error type shared by the COBS and COBS/R decoders.

use vstd::prelude::*;

verus! {

/// An error returned when decoding fails.
#[derive(Debug, Clone, Copy, PartialEq, Eq, Structural)]
#[non_exhaustive]
pub enum DecodeError {
    /// A zero byte (after removing the sentinel) appeared in the encoded input,
    /// at input position `index`; a valid COBS stream never contains one.
    ZeroByte { index: usize },
    /// A length code at input position `index` claimed more bytes than remain
    /// in the input (basic COBS only; COBS/R reads that as its reduced final
    /// block).
    Truncated { index: usize },
    /// The destination buffer was too small to hold the decoded output.
    OutputTooSmall,
    /// A streaming frame decoder buffered `len` bytes, more than its configured
    /// maximum frame length, without seeing a delimiter.
    FrameTooLong { len: usize },
}

/// The decimal digit `d` as a character.
pub open spec fn digit_char(d: nat) -> char {
    (d + 48) as char
}

/// The decimal representation of `n`, most significant digit first.
pub open spec fn decimal(n: nat) -> Seq<char>
    decreases n,
{
    if n < 10 {
        seq![digit_char(n)]
    } else {
        decimal(n / 10).push(digit_char(n % 10))
    }
}

impl DecodeError {
    /// The human-readable message of the error.
    pub open spec fn spec_message(self) -> Seq<char> {
        match self {
            DecodeError::ZeroByte { index } => "zero byte in encoded input at index "@ + decimal(index as nat),
            DecodeError::Truncated { index } => "length code at index "@ + decimal(index as nat)
                + " points past end of input"@,
            DecodeError::OutputTooSmall => "destination buffer too small"@,
            DecodeError::FrameTooLong { len } => "unterminated frame exceeds maximum length ("@
                + decimal(len as nat) + " bytes)"@,
        }
    }

    /// The human-readable message of the error, such as
    /// `"zero byte in encoded input at index 3"`.
    pub fn message(&self) -> (m: String)
        ensures
            m@ == self.spec_message(),
    {
        match *self {
            DecodeError::ZeroByte { index } => {
                let mut m = String::from_str("zero byte in encoded input at index ");
                append_decimal(&mut m, index);
                m
            },
            DecodeError::Truncated { index } => {
                let mut m = String::from_str("length code at index ");
                append_decimal(&mut m, index);
                m.append(" points past end of input");
                m
            },
            DecodeError::OutputTooSmall => String::from_str("destination buffer too small"),
            DecodeError::FrameTooLong { len } => {
                let mut m = String::from_str("unterminated frame exceeds maximum length (");
                append_decimal(&mut m, len);
                m.append(" bytes)");
                m
            },
        }
    }
}

/// Appends the decimal representation of `n` to `s`.
fn append_decimal(s: &mut String, n: usize)
    ensures
        final(s)@ == old(s)@ + decimal(n as nat),
    decreases n,
{
    if n >= 10 {
        append_decimal(s, n / 10);
    }
    let d = n % 10;
    let digits = "0123456789";
    proof {
        reveal_strlit("0123456789");
    }
    let digit = digits.substring_char(d, d + 1);
    assert(digit@ =~= seq![digit_char(d as nat)]);
    s.append(digit);
    assert(s@ =~= old(s)@ + decimal(n as nat));
}

} // verus!
