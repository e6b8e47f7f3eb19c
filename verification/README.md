# cobs_codec_rs

Consistent Overhead Byte Stuffing (COBS) and COBS/R, written in Verus and
proved correct against a mathematical model of the encodings.

Layout:

- `src/model.rs` — the model: `encode_blocks` (the COBS and COBS/R encodings
  of a message), `decode_blocks` (what a decoder writes, and the error it stops
  with, on any input), and the lemmas about them.
- `src/error.rs` — the decode error and its message, specified character by
  character.
- `src/codec.rs` — the shared block encoder, slice decoder and in-place decoder.
- `src/cobs.rs`, `src/cobsr.rs` — the public codecs (slice, sentinel, in-place
  and `Vec` variants), each specified exactly by the model, and their laws:
  decoding inverts encoding, the basic encoding is the shortest input that decodes
  to the message, encodings avoid the delimiter, size bounds.
- `src/framing.rs` — `frame`, the allocation-free `StreamDecoder` and the
  `Vec`-based `FrameDecoder`, specified as state machines, with the laws that
  they decode framed packets, agree with the slice decoders on any frame,
  recover after a bad frame, and hand every result to the caller's callback.
- `app/lib.rs` — a copy of the decode error with serde support, `Display`
  (written from the verified message) and `std::error::Error`.
- `tests/` — golden vectors, randomized round trips and concrete checks.
