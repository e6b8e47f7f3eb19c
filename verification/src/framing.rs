//! Packet framing on top of COBS: because an encoding never contains a zero
//! byte, a single zero byte delimits encoded packets on a byte stream.
//!
//! [`StreamDecoder`] reassembles frames into a caller-provided buffer without
//! allocating; [`FrameDecoder`] does the same into owned vectors.

use vstd::prelude::*;
use crate::model::{
    cobs_encode, cobsr_encode, code_block, decode_blocks, encode_blocks, lemma_decode_encode,
    lemma_encode_len_bound, lemma_encode_nonempty, lemma_encode_zero_free, lemma_nonzero_prefix,
    run_len, xor_all, zero_free, block_data, nonzero_prefix_len, decode_run, decode_outcome, lemma_xor_twice, lemma_nonzero_prefix_is, lemma_xor_avoids, separator,
};
use crate::{cobs, cobsr, spec_max_encoded_len, DecodeError, DELIMITER};

verus! {

/// Encodes `packet` with basic COBS into `dst` and appends the delimiter,
/// returning the number of bytes written (the encoding plus one). `dst` must
/// hold `max_encoded_len(packet.len()) + 1` bytes.
pub fn frame(packet: &[u8], dst: &mut [u8]) -> (n: usize)
    requires
        old(dst)@.len() >= spec_max_encoded_len(packet@.len()) + 1,
    ensures
        n == cobs_encode(packet@).len() + 1,
        final(dst)@.len() == old(dst)@.len(),
        final(dst)@.take(n as int) == cobs_encode(packet@).push(DELIMITER),
        final(dst)@.skip(n as int) == old(dst)@.skip(n as int),
{
    proof {
        lemma_encode_len_bound(packet@);
    }
    let n = cobs::encode(packet, dst);
    let ghost mid = dst@;
    dst[n] = DELIMITER;
    assert(dst@.take(n + 1) =~= cobs_encode(packet@).push(DELIMITER)) by {
        assert(mid.take(n as int) == cobs_encode(packet@));
    }
    assert(dst@.skip(n + 1) =~= old(dst)@.skip(n + 1)) by {
        assert(mid.skip(n as int) == old(dst)@.skip(n as int));
        assert forall|i: int| 0 <= i < dst@.len() - (n + 1) implies #[trigger] dst@.skip(n + 1)[i] == old(dst)@.skip(n + 1)[i] by {
            assert(mid.skip(n as int)[i + 1] == old(dst)@.skip(n as int)[i + 1]);
        }
    }
    n + 1
}

/// Encodes `packet` with basic COBS and appends the delimiter, returning a new
/// vector.
pub fn frame_to_vec(packet: &[u8]) -> (v: Vec<u8>)
    requires
        spec_max_encoded_len(packet@.len()) < usize::MAX,
    ensures
        v@ == cobs_encode(packet@).push(DELIMITER),
{
    let mut v = cobs::encode_to_vec(packet);
    v.push(DELIMITER);
    v
}

/// Encodes `packet` with COBS/R and appends the delimiter, returning a new
/// vector.
pub fn frame_reduced_to_vec(packet: &[u8]) -> (v: Vec<u8>)
    requires
        spec_max_encoded_len(packet@.len()) < usize::MAX,
    ensures
        v@ == cobsr_encode(packet@).push(DELIMITER),
{
    let mut v = cobsr::encode_to_vec(packet);
    v.push(DELIMITER);
    v
}

// ---------------------------------------------------------------------------
// FrameDecoder
// ---------------------------------------------------------------------------

/// What decoding one delimited frame gives: the packet, or the error.
pub open spec fn frame_result(frame: Seq<u8>, reduced: bool) -> Result<Seq<u8>, DecodeError> {
    let run = decode_blocks(frame, 0, reduced);
    match run.1 {
        None => Ok(run.0),
        Some(e) => Err(e),
    }
}

/// The results that a frame ending at a delimiter gives: none for an empty
/// frame that is skipped, an empty packet for one that is not, and the
/// decoding of any other.
pub open spec fn frame_events(frame: Seq<u8>, reduced: bool, skip_empty: bool) -> Seq<Result<Seq<u8>, DecodeError>> {
    if frame.len() == 0 {
        if skip_empty {
            seq![]
        } else {
            seq![Ok(Seq::<u8>::empty())]
        }
    } else {
        seq![frame_result(frame, reduced)]
    }
}

/// Scanning `chunk` with `buf` already buffered: the bytes left buffered, and
/// the results of the frames that the chunk's delimiters complete, in order.
pub open spec fn scan_frames(buf: Seq<u8>, chunk: Seq<u8>, reduced: bool, skip_empty: bool)
    -> (Seq<u8>, Seq<Result<Seq<u8>, DecodeError>>)
    decreases chunk.len(),
{
    if chunk.len() == 0 {
        (buf, seq![])
    } else if chunk[0] != DELIMITER {
        scan_frames(buf.push(chunk[0]), chunk.drop_first(), reduced, skip_empty)
    } else {
        let rest = scan_frames(seq![], chunk.drop_first(), reduced, skip_empty);
        (rest.0, frame_events(buf, reduced, skip_empty) + rest.1)
    }
}

/// The state of a [`FrameDecoder`].
pub struct FrameDecoderView {
    pub buf: Seq<u8>,
    pub reduced: bool,
    pub skip_empty: bool,
    pub max_frame_len: usize,
}

/// What [`FrameDecoder::push`] does: scan the chunk, then, when the chunk ends
/// inside a frame and a nonzero bound is exceeded, drop the buffered bytes
/// and report `FrameTooLong`.
pub open spec fn push_spec(st: FrameDecoderView, chunk: Seq<u8>) -> (FrameDecoderView, Seq<Result<Seq<u8>, DecodeError>>) {
    let scanned = scan_frames(st.buf, chunk, st.reduced, st.skip_empty);
    if chunk.len() > 0 && chunk.last() != DELIMITER && st.max_frame_len != 0 && scanned.0.len() > st.max_frame_len {
        (
            FrameDecoderView { buf: seq![], ..st },
            scanned.1.push(Err(DecodeError::FrameTooLong { len: scanned.0.len() as usize })),
        )
    } else {
        (FrameDecoderView { buf: scanned.0, ..st }, scanned.1)
    }
}

/// The value of a frame result.
pub open spec fn result_view(r: Result<Vec<u8>, DecodeError>) -> Result<Seq<u8>, DecodeError> {
    match r {
        Ok(v) => Ok(v@),
        Err(e) => Err(e),
    }
}

/// A streaming decoder that turns a byte stream of delimited COBS (or COBS/R)
/// frames into decoded packets, buffering across arbitrarily sized chunks.
#[derive(Debug, Clone, Default)]
pub struct FrameDecoder {
    buf: Vec<u8>,
    reduced: bool,
    skip_empty: bool,
    max_frame_len: usize,
}

impl View for FrameDecoder {
    type V = FrameDecoderView;

    closed spec fn view(&self) -> FrameDecoderView {
        FrameDecoderView {
            buf: self.buf@,
            reduced: self.reduced,
            skip_empty: self.skip_empty,
            max_frame_len: self.max_frame_len,
        }
    }
}

impl FrameDecoder {
    /// Creates a decoder for basic COBS that skips empty frames and has no
    /// bound on the frame length.
    pub fn new() -> (d: Self)
        ensures
            d@ == (FrameDecoderView { buf: seq![], reduced: false, skip_empty: true, max_frame_len: 0 }),
    {
        FrameDecoder { buf: Vec::new(), reduced: false, skip_empty: true, max_frame_len: 0 }
    }

    /// Decode frames as COBS/R instead of basic COBS.
    pub fn reduced(self, reduced: bool) -> (d: Self)
        ensures
            d@ == (FrameDecoderView { reduced, ..self@ }),
    {
        let mut d = self;
        d.reduced = reduced;
        d
    }

    /// Whether to skip empty frames (from consecutive or leading delimiters)
    /// rather than report empty packets.
    pub fn skip_empty(self, skip_empty: bool) -> (d: Self)
        ensures
            d@ == (FrameDecoderView { skip_empty, ..self@ }),
    {
        let mut d = self;
        d.skip_empty = skip_empty;
        d
    }

    /// Bound the number of bytes buffered for one unterminated frame; `0`
    /// means unbounded.
    pub fn max_frame_len(self, max_frame_len: usize) -> (d: Self)
        ensures
            d@ == (FrameDecoderView { max_frame_len, ..self@ }),
    {
        let mut d = self;
        d.max_frame_len = max_frame_len;
        d
    }

    /// Feeds a chunk of raw bytes and returns the result of every frame it
    /// completes, in order.
    pub fn push_frames(&mut self, chunk: &[u8]) -> (results: Vec<Result<Vec<u8>, DecodeError>>)
        ensures
            final(self)@ == push_spec(old(self)@, chunk@).0,
            results@.len() == push_spec(old(self)@, chunk@).1.len(),
            forall|i: int| 0 <= i < results@.len() ==> #[trigger] result_view(results@[i]) == push_spec(old(self)@, chunk@).1[i],
    {
        let ghost st = self@;
        let ghost total = scan_frames(st.buf, chunk@, st.reduced, st.skip_empty);
        let mut results: Vec<Result<Vec<u8>, DecodeError>> = Vec::new();
        let mut i: usize = 0;
        proof {
            assert(chunk@.skip(0) =~= chunk@);
        }
        while i < chunk.len()
            invariant
                i <= chunk@.len(),
                self.reduced == st.reduced,
                self.skip_empty == st.skip_empty,
                self.max_frame_len == st.max_frame_len,
                total == scan_frames(st.buf, chunk@, st.reduced, st.skip_empty),
                total.0 == scan_frames(self.buf@, chunk@.skip(i as int), st.reduced, st.skip_empty).0,
                total.1 =~= results@.map_values(|r: Result<Vec<u8>, DecodeError>| result_view(r))
                    + scan_frames(self.buf@, chunk@.skip(i as int), st.reduced, st.skip_empty).1,
            decreases chunk@.len() - i,
        {
            let b = chunk[i];
            let ghost rest = chunk@.skip(i as int);
            proof {
                assert(rest[0] == b);
                assert(rest.drop_first() =~= chunk@.skip(i + 1));
            }
            if b != DELIMITER {
                self.buf.push(b);
            } else {
                let mut frame: Vec<u8> = Vec::new();
                core::mem::swap(&mut frame, &mut self.buf);
                let ghost before = results@;
                if frame.len() == 0 {
                    if !self.skip_empty {
                        results.push(Ok(Vec::new()));
                    }
                } else {
                    let decoded = if self.reduced {
                        cobsr::decode_to_vec(frame.as_slice())
                    } else {
                        cobs::decode_to_vec(frame.as_slice())
                    };
                    proof {
                        assert(result_view(decoded) == frame_result(frame@, st.reduced));
                    }
                    results.push(decoded);
                }
                proof {
                    assert(results@.map_values(|r: Result<Vec<u8>, DecodeError>| result_view(r))
                        =~= before.map_values(|r: Result<Vec<u8>, DecodeError>| result_view(r))
                        + frame_events(frame@, st.reduced, st.skip_empty));
                }
            }
            i += 1;
        }
        let ghost mapped = results@.map_values(|r: Result<Vec<u8>, DecodeError>| result_view(r));
        proof {
            assert(mapped =~= total.1);
        }
        if i > 0 && chunk[i - 1] != DELIMITER && self.max_frame_len != 0 && self.buf.len() > self.max_frame_len {
            let len = self.buf.len();
            self.buf.clear();
            results.push(Err(DecodeError::FrameTooLong { len }));
            proof {
                assert(results@.map_values(|r: Result<Vec<u8>, DecodeError>| result_view(r)) =~= mapped.push(
                    Err(DecodeError::FrameTooLong { len })));
            }
        }
        proof {
            let m = results@.map_values(|r: Result<Vec<u8>, DecodeError>| result_view(r));
            assert forall|j: int| 0 <= j < results@.len() implies #[trigger] result_view(results@[j]) == push_spec(st, chunk@).1[j] by {
                assert(m[j] == result_view(results@[j]));
            }
        }
        results
    }

    /// Feeds a chunk of raw bytes, handing `on_frame` the result of each frame
    /// the chunk completes, in order: the results of [`Self::push_frames`].
    pub fn push<F: FnMut(Result<Vec<u8>, DecodeError>)>(&mut self, chunk: &[u8], mut on_frame: F)
        requires
            forall|r: Result<Vec<u8>, DecodeError>| call_requires(on_frame, (r,)),
        ensures
            final(self)@ == push_spec(old(self)@, chunk@).0,
            forall|i: int| #![trigger push_spec(old(self)@, chunk@).1[i]]
                0 <= i < push_spec(old(self)@, chunk@).1.len() ==> exists|r: Result<Vec<u8>, DecodeError>|
                    #[trigger] result_view(r) == push_spec(old(self)@, chunk@).1[i] && call_ensures(on_frame, (r,), ()),
    {
        let ghost events = push_spec(old(self)@, chunk@).1;
        let ghost f0 = on_frame;
        let results = self.push_frames(chunk);
        for r in it: results
            invariant
                forall|r: Result<Vec<u8>, DecodeError>| call_requires(on_frame, (r,)),
                on_frame == f0,
                it.seq() == results@,
                results@.len() == events.len(),
                forall|i: int| 0 <= i < results@.len() ==> #[trigger] result_view(results@[i]) == events[i],
                forall|j: int| 0 <= j < it.index() ==> call_ensures(f0, (#[trigger] results@[j],), ()),
        {
            on_frame(r);
        }
        assert forall|i: int| #![trigger events[i]] 0 <= i < events.len() implies exists|r: Result<Vec<u8>, DecodeError>|
            #[trigger] result_view(r) == events[i] && call_ensures(f0, (r,), ()) by {
            let r = results@[i];
            assert(result_view(r) == events[i] && call_ensures(f0, (r,), ()));
        }
    }

    /// Discards any buffered partial frame.
    pub fn reset(&mut self)
        ensures
            final(self)@ == (FrameDecoderView { buf: seq![], ..old(self)@ }),
    {
        self.buf.clear();
    }
}

// ---------------------------------------------------------------------------
// StreamDecoder
// ---------------------------------------------------------------------------

/// The state of a [`StreamDecoder`]: the caller's buffer, how much of it the
/// current frame fills, how many raw bytes of the frame have been read and the
/// position among them of the current block's code byte, the code byte of the block being read and how many of
/// its data bytes are still to come, the configuration, and whether a frame
/// has just completed (it stays in the buffer until the next byte) or an
/// overflowing frame is being skipped up to its delimiter.
pub struct StreamDecoderView {
    pub buf: Seq<u8>,
    pub write_index: nat,
    pub read_index: usize,
    pub code_index: usize,
    pub remaining: u8,
    pub code: u8,
    pub sentinel: u8,
    pub reduced: bool,
    pub complete: bool,
    pub discarding: bool,
}

/// One more than `x`, staying at `usize::MAX` once there.
pub open spec fn count_up(x: usize) -> usize {
    if x < usize::MAX {
        (x + 1) as usize
    } else {
        x
    }
}

impl StreamDecoderView {
    /// The current frame fits in the buffer.
    pub open spec fn wf(self) -> bool {
        self.write_index <= self.buf.len()
    }

    /// The bytes decoded so far for the current (or just completed) frame.
    pub open spec fn decoded(self) -> Seq<u8> {
        self.buf.take(self.write_index as int)
    }

    /// No frame is in progress: the next byte starts a new frame.
    pub open spec fn at_frame_start(self) -> bool {
        &&& !self.discarding
        &&& self.remaining == 0
        &&& self.code == 0
        &&& (self.complete || (self.write_index == 0 && self.read_index == 0))
    }

    /// The state with the current frame dropped.
    pub open spec fn cleared(self) -> StreamDecoderView {
        StreamDecoderView {
            write_index: 0,
            read_index: 0,
            code_index: 0,
            remaining: 0,
            code: 0,
            complete: false,
            discarding: false,
            ..self
        }
    }

    /// The state once a frame completes: its bytes stay in the buffer.
    pub open spec fn completed(self) -> StreamDecoderView {
        StreamDecoderView { remaining: 0, code: 0, complete: true, ..self }
    }

    /// Appending one decoded byte, when it fits.
    pub open spec fn put(self, b: u8) -> Option<StreamDecoderView> {
        if self.write_index < self.buf.len() {
            Some(StreamDecoderView {
                buf: self.buf.update(self.write_index as int, b),
                write_index: self.write_index + 1,
                ..self
            })
        } else {
            None
        }
    }

    /// The state as the next byte arrives: a completed frame gives way.
    pub open spec fn begin(self) -> StreamDecoderView {
        if self.complete {
            StreamDecoderView { write_index: 0, read_index: 0, complete: false, ..self }
        } else {
            self
        }
    }
}

/// What feeding one raw byte does: the next state and the result.
pub open spec fn feed_spec(st0: StreamDecoderView, byte: u8) -> (StreamDecoderView, Result<Option<usize>, DecodeError>) {
    let st = st0.begin();
    if byte == st.sentinel {
        if st.discarding {
            (st.cleared(), Ok(None))
        } else if st.remaining > 0 {
            if st.reduced {
                match st.put(st.code) {
                    Some(s2) => (s2.completed(), Ok(Some(s2.write_index as usize))),
                    None => (st.cleared(), Err(DecodeError::OutputTooSmall)),
                }
            } else {
                (st.cleared(), Err(DecodeError::Truncated { index: st.code_index }))
            }
        } else {
            (st.completed(), Ok(Some(st.write_index as usize)))
        }
    } else if st.discarding {
        (st, Ok(None))
    } else {
        let value = byte ^ st.sentinel;
        let st = StreamDecoderView { read_index: count_up(st0.begin().read_index), ..st0.begin() };
        if st.remaining == 0 {
            let st = StreamDecoderView { code_index: st0.begin().read_index, ..st };
            if st.code != 0 && st.code < 255 {
                match st.put(0) {
                    Some(s2) => (StreamDecoderView { code: value, remaining: (value - 1) as u8, ..s2 }, Ok(None)),
                    None => (StreamDecoderView { discarding: true, ..st.cleared() }, Err(DecodeError::OutputTooSmall)),
                }
            } else {
                (StreamDecoderView { code: value, remaining: (value - 1) as u8, ..st }, Ok(None))
            }
        } else {
            match st.put(value) {
                Some(s2) => (StreamDecoderView { remaining: (st.remaining - 1) as u8, ..s2 }, Ok(None)),
                None => (StreamDecoderView { discarding: true, ..st.cleared() }, Err(DecodeError::OutputTooSmall)),
            }
        }
    }
}

/// Feeding the raw bytes `bytes` one after another: the final state and the
/// result of each byte.
pub open spec fn feed_all(st: StreamDecoderView, bytes: Seq<u8>) -> (StreamDecoderView, Seq<Result<Option<usize>, DecodeError>>)
    decreases bytes.len(),
{
    if bytes.len() == 0 {
        (st, seq![])
    } else {
        let first = feed_spec(st, bytes[0]);
        let rest = feed_all(first.0, bytes.drop_first());
        (rest.0, seq![first.1] + rest.1)
    }
}

/// A no-allocation streaming decoder that reassembles delimited COBS (or
/// COBS/R) frames into a caller-provided buffer, across arbitrarily sized
/// chunks. A frame completes when the sentinel byte (zero by default) is
/// fed; its bytes stay in the buffer until the next byte. On an error the
/// frame is dropped, and decoding resumes with the next frame.
#[derive(Debug)]
pub struct StreamDecoder<'a> {
    dst: &'a mut [u8],
    write_index: usize,
    read_index: usize,
    code_index: usize,
    remaining: u8,
    code: u8,
    sentinel: u8,
    reduced: bool,
    complete: bool,
    discarding: bool,
}

impl<'a> View for StreamDecoder<'a> {
    type V = StreamDecoderView;

    closed spec fn view(&self) -> StreamDecoderView {
        StreamDecoderView {
            buf: self.dst@,
            write_index: self.write_index as nat,
            read_index: self.read_index,
            code_index: self.code_index,
            remaining: self.remaining,
            code: self.code,
            sentinel: self.sentinel,
            reduced: self.reduced,
            complete: self.complete,
            discarding: self.discarding,
        }
    }
}

impl<'a> StreamDecoder<'a> {
    #[verifier::type_invariant]
    spec fn inv(self) -> bool {
        self.write_index <= self.dst@.len()
    }

    /// Creates a decoder that writes decoded packets into `dst`, framed by
    /// the zero delimiter and read as basic COBS.
    pub fn new(dst: &'a mut [u8]) -> (d: Self)
        ensures
            d@ == (StreamDecoderView {
                buf: old(dst)@,
                write_index: 0,
                read_index: 0,
                code_index: 0,
                remaining: 0,
                code: 0,
                sentinel: DELIMITER,
                reduced: false,
                complete: false,
                discarding: false,
            }),
    {
        StreamDecoder {
            dst,
            write_index: 0,
            read_index: 0,
            code_index: 0,
            remaining: 0,
            code: 0,
            sentinel: DELIMITER,
            reduced: false,
            complete: false,
            discarding: false,
        }
    }

    /// Decode frames as COBS/R instead of basic COBS.
    pub fn reduced(self, reduced: bool) -> (d: Self)
        ensures
            d@ == (StreamDecoderView { reduced, ..self@ }),
    {
        let mut d = self;
        proof {
            use_type_invariant(&d);
        }
        d.reduced = reduced;
        d
    }

    /// Use `sentinel` as the frame delimiter, and the byte the encoding
    /// avoids, instead of zero.
    pub fn sentinel(self, sentinel: u8) -> (d: Self)
        ensures
            d@ == (StreamDecoderView { sentinel, ..self@ }),
    {
        let mut d = self;
        proof {
            use_type_invariant(&d);
        }
        d.sentinel = sentinel;
        d
    }

    /// The decoded bytes of the frame in progress, or of the frame that just
    /// completed, until the next byte is fed.
    pub fn decoded(&self) -> (r: &[u8])
        ensures
            r@ == self@.decoded(),
    {
        proof {
            use_type_invariant(self);
        }
        vstd::slice::slice_subrange(&*self.dst, 0, self.write_index)
    }

    /// Discards any partially decoded frame.
    pub fn reset(&mut self)
        ensures
            final(self)@ == old(self)@.cleared(),
    {
        self.write_index = 0;
        self.read_index = 0;
        self.code_index = 0;
        self.remaining = 0;
        self.code = 0;
        self.complete = false;
        self.discarding = false;
    }

    fn put(&mut self, byte: u8) -> (r: Result<(), DecodeError>)
        ensures
            match old(self)@.put(byte) {
                Some(s2) => r is Ok && final(self)@ == s2,
                None => r == Err::<(), DecodeError>(DecodeError::OutputTooSmall) && final(self)@ == old(self)@,
            },
    {
        proof {
            use_type_invariant(&*self);
        }
        if self.write_index < self.dst.len() {
            self.dst[self.write_index] = byte;
            self.write_index += 1;
            Ok(())
        } else {
            Err(DecodeError::OutputTooSmall)
        }
    }

    fn discard(&mut self)
        ensures
            final(self)@ == (StreamDecoderView { discarding: true, ..old(self)@.cleared() }),
    {
        self.reset();
        self.discarding = true;
    }

    /// Feeds one raw byte. Returns `Ok(Some(len))` when a frame completes (its
    /// bytes are then `decoded()`, the first `len` bytes of the buffer, until
    /// the next byte is fed), `Ok(None)` otherwise; `Truncated`, with the position in the
    /// frame of the block's code byte, when a delimiter arrives inside a
    /// basic-COBS block, `OutputTooSmall` when the
    /// buffer fills up. On an error the frame is dropped and decoding resumes
    /// with the next frame.
    pub fn feed(&mut self, byte: u8) -> (r: Result<Option<usize>, DecodeError>)
        ensures
            final(self)@ == feed_spec(old(self)@, byte).0,
            r == feed_spec(old(self)@, byte).1,
            final(self)@.wf(),
    {
        proof {
            use_type_invariant(&*self);
        }
        if self.complete {
            self.write_index = 0;
            self.read_index = 0;
            self.complete = false;
        }
        if byte == self.sentinel {
            if self.discarding {
                self.reset();
                return Ok(None);
            }
            if self.remaining > 0 {
                if self.reduced {
                    // Reduced final block: the length code was the last data byte.
                    match self.put(self.code) {
                        Ok(()) => {},
                        Err(e) => {
                            self.reset();
                            return Err(e);
                        },
                    }
                } else {
                    let index = self.code_index;
                    self.reset();
                    return Err(DecodeError::Truncated { index });
                }
            }
            let len = self.write_index;
            self.remaining = 0;
            self.code = 0;
            self.complete = true;
            proof {
                use_type_invariant(&*self);
            }
            return Ok(Some(len));
        }
        if self.discarding {
            return Ok(None);
        }
        let sentinel = self.sentinel;
        let value = byte ^ sentinel;
        assert(value != 0) by (bit_vector)
            requires
                byte != sentinel,
                value == byte ^ sentinel,
        ;
        let position = self.read_index;
        if self.read_index < usize::MAX {
            self.read_index += 1;
        }
        if self.remaining == 0 {
            self.code_index = position;
            // A new block starts; the block before it, when its code is below
            // 0xFF, stood for its data and a zero byte.
            if self.code != 0 && self.code < 0xFF {
                match self.put(0) {
                    Ok(()) => {},
                    Err(e) => {
                        self.discard();
                        return Err(e);
                    },
                }
            }
            self.code = value;
            self.remaining = value - 1;
        } else {
            match self.put(value) {
                Ok(()) => {},
                Err(e) => {
                    self.discard();
                    return Err(e);
                },
            }
            self.remaining -= 1;
        }
        proof {
            use_type_invariant(&*self);
        }
        Ok(None)
    }

    /// Feeds a chunk of raw bytes, calling `step` once per completed frame
    /// and once per failed one, in order, on the value its previous call
    /// returned (`init` for the first); `inv` holds of every such value.
    fn fold_events<S, G: for<'b> Fn(S, Result<&'b [u8], DecodeError>) -> S>(
        &mut self,
        chunk: &[u8],
        init: S,
        step: G,
        Ghost(inv): Ghost<spec_fn(S) -> bool>,
    ) -> (out: S)
        requires
            inv(init),
            forall|s: S, x: Result<&[u8], DecodeError>| inv(s) ==> call_requires(step, (s, x)),
            forall|s: S, x: Result<&[u8], DecodeError>, t: S| inv(s) && call_ensures(step, (s, x), t) ==> inv(t),
        ensures
            final(self)@ == feed_all(old(self)@, chunk@).0,
            exists|states: Seq<S>|
                #[trigger] fold_chain(step, stream_events(old(self)@, chunk@), states) && states[0] == init
                    && states.last() == out && forall|k: int| 0 <= k < states.len() ==> inv(#[trigger] states[k]),
    {
        let ghost st0 = self@;
        let ghost mut states: Seq<S> = seq![init];
        let mut acc = init;
        let mut i: usize = 0;
        proof {
            assert(chunk@.take(0) =~= seq![]);
        }
        while i < chunk.len()
            invariant
                i <= chunk@.len(),
                st0 == old(self)@,
                self@ == feed_all(st0, chunk@.take(i as int)).0,
                fold_chain(step, stream_events(st0, chunk@.take(i as int)), states),
                states[0] == init,
                states.last() == acc,
                forall|k: int| 0 <= k < states.len() ==> inv(#[trigger] states[k]),
                forall|s: S, x: Result<&[u8], DecodeError>| inv(s) ==> call_requires(step, (s, x)),
                forall|s: S, x: Result<&[u8], DecodeError>, t: S| inv(s) && call_ensures(step, (s, x), t) ==> inv(t),
            decreases chunk@.len() - i,
        {
            let byte = chunk[i];
            proof {
                lemma_feed_all_step(st0, chunk@, i as int);
                lemma_stream_events_step(st0, chunk@, i as int);
            }
            let ghost evs = stream_events(st0, chunk@.take(i as int));
            let ghost st = stream_step(st0, chunk@, i as int);
            let ghost before = states;
            let r = self.feed(byte);
            match r {
                Ok(Some(len)) => {
                    proof {
                        use_type_invariant(&*self);
                        assert(inv(before[before.len() - 1]));
                    }
                    let frame = vstd::slice::slice_subrange(&*self.dst, 0, len);
                    let ghost prev = acc;
                    let ghost arg = Ok::<&[u8], DecodeError>(frame);
                    acc = step(acc, Ok(frame));
                    proof {
                        assert(frame@ == st.0.decoded());
                        states = before.push(acc);
                        let evs2 = evs.push(Ok(st.0.decoded()));
                        lemma_fold_chain_push(step, evs, before, Ok(st.0.decoded()), arg, acc);
                        assert(fold_chain(step, evs2, states));
                        assert forall|k: int| 0 <= k < states.len() implies inv(#[trigger] states[k]) by {
                            if k < before.len() {
                                assert(states[k] == before[k]);
                            }
                        }
                    }
                },
                Ok(None) => {},
                Err(err) => {
                    proof {
                        assert(inv(before[before.len() - 1]));
                    }
                    let ghost prev = acc;
                    let ghost arg = Err::<&[u8], DecodeError>(err);
                    acc = step(acc, Err(err));
                    proof {
                        states = before.push(acc);
                        let evs2 = evs.push(Err(err));
                        lemma_fold_chain_push(step, evs, before, Err(err), arg, acc);
                        assert(fold_chain(step, evs2, states));
                        assert forall|k: int| 0 <= k < states.len() implies inv(#[trigger] states[k]) by {
                            if k < before.len() {
                                assert(states[k] == before[k]);
                            }
                        }
                    }
                },
            }
            i += 1;
        }
        proof {
            assert(chunk@.take(chunk@.len() as int) =~= chunk@);
        }
        acc
    }

    /// Feeds a chunk of raw bytes and folds `step` over what it hands on:
    /// starting from `init`, `step` is called exactly once per completed frame
    /// (`Ok` with the decoded packet, borrowed from the buffer) and once per
    /// failed one (`Err`), in order, each time on the value the previous call
    /// returned, and the last value is returned.
    pub fn push_fold<S, G: for<'b> Fn(S, Result<&'b [u8], DecodeError>) -> S>(
        &mut self,
        chunk: &[u8],
        init: S,
        step: G,
    ) -> (out: S)
        requires
            forall|s: S, x: Result<&[u8], DecodeError>| call_requires(step, (s, x)),
        ensures
            final(self)@ == feed_all(old(self)@, chunk@).0,
            folds_to(step, init, stream_events(old(self)@, chunk@), out),
    {
        let ghost evs = stream_events(self@, chunk@);
        let ghost any = |s: S| true;
        let out = self.fold_events(chunk, init, step, Ghost(any));
        proof {
            let states = choose|states: Seq<S>|
                #[trigger] fold_chain(step, evs, states) && states[0] == init && states.last() == out
                    && forall|k: int| 0 <= k < states.len() ==> any(#[trigger] states[k]);
            assert(fold_chain(step, evs, states) && states[0] == init && states.last() == out);
        }
        out
    }

    /// Feeds a chunk of raw bytes, invoking `on_frame` once per completed
    /// frame (`Ok` with the decoded packet, borrowed from the buffer) and
    /// once per failed one (`Err`), in order: a fold of the calls over
    /// [`Self::push_fold`]'s events, with the callback as the folded value.
    pub fn push<F: for<'b> FnMut(Result<&'b [u8], DecodeError>)>(&mut self, chunk: &[u8], mut on_frame: F)
        requires
            forall|x: Result<&[u8], DecodeError>| call_requires(on_frame, (x,)),
        ensures
            final(self)@ == feed_all(old(self)@, chunk@).0,
            forall|i: int| #![trigger chunk@[i]]
                0 <= i < chunk@.len() ==> handed_on(on_frame, stream_step(old(self)@, chunk@, i)),
            forall|k: int| #![trigger stream_events(old(self)@, chunk@)[k]]
                0 <= k < stream_events(old(self)@, chunk@).len() ==> exists|x: Result<&[u8], DecodeError>|
                    #[trigger] call_ensures(on_frame, (x,), ()) && event_view(x) == stream_events(old(self)@, chunk@)[k],
    {
        let ghost f0 = on_frame;
        let ghost st0 = self@;
        let ghost evs = stream_events(st0, chunk@);
        let relay = |g: F, x: Result<&[u8], DecodeError>| -> (h: F)
            requires
                forall|y: Result<&[u8], DecodeError>| call_requires(g, (y,)),
            ensures
                h == g,
                call_ensures(g, (x,), ()),
        {
            let mut g = g;
            g(x);
            g
        };
        let ghost inv = |g: F| g == f0;
        let _ = self.fold_events(chunk, on_frame, relay, Ghost(inv));
        proof {
            let states = choose|states: Seq<F>|
                #[trigger] fold_chain(relay, evs, states) && states[0] == f0 && forall|k: int|
                    0 <= k < states.len() ==> inv(#[trigger] states[k]);
            assert forall|k: int| #![trigger evs[k]] 0 <= k < evs.len() implies exists|x: Result<&[u8], DecodeError>|
                #[trigger] call_ensures(f0, (x,), ()) && event_view(x) == evs[k] by {
                assert(fold_step(relay, states[k], evs[k], states[k + 1]));
                assert(inv(states[k]) && inv(states[k + 1]));
                let x = choose|x: Result<&[u8], DecodeError>|
                    #[trigger] call_ensures(relay, (states[k], x), states[k + 1]) && event_view(x) == evs[k];
                assert(call_ensures(f0, (x,), ()));
            }
            assert forall|i: int| #![trigger chunk@[i]] 0 <= i < chunk@.len() implies handed_on(
                f0,
                stream_step(st0, chunk@, i),
            ) by {
                lemma_stream_events_step(st0, chunk@, i);
                lemma_stream_events_prefix(st0, chunk@, i + 1);
                let k = stream_events(st0, chunk@.take(i)).len() as int;
                let step = stream_step(st0, chunk@, i);
                let upto = stream_events(st0, chunk@.take(i + 1));
                if upto.len() > k {
                    assert(evs.take(upto.len() as int)[k] == evs[k]);
                    assert(evs[k] == upto[k]);
                }
                match step.1 {
                    Ok(Some(_)) => {
                        assert(evs[k] == Ok::<Seq<u8>, DecodeError>(step.0.decoded()));
                        let x = choose|x: Result<&[u8], DecodeError>|
                            #[trigger] call_ensures(f0, (x,), ()) && event_view(x) == evs[k];
                        assert(call_ensures(f0, (x,), ()) && (x matches Ok(frame) && frame@ == step.0.decoded()));
                    },
                    Ok(None) => {},
                    Err(e) => {
                        assert(evs[k] == Err::<Seq<u8>, DecodeError>(e));
                        let x = choose|x: Result<&[u8], DecodeError>|
                            #[trigger] call_ensures(f0, (x,), ()) && event_view(x) == evs[k];
                        assert(x == Err::<&[u8], DecodeError>(e));
                    },
                }
            }
        }
    }
}

/// The state before byte `i` of `chunk`, fed from `st`, and what that byte
/// does.
pub open spec fn stream_step(st: StreamDecoderView, chunk: Seq<u8>, i: int) -> (StreamDecoderView, Result<Option<usize>, DecodeError>) {
    feed_spec(feed_all(st, chunk.take(i)).0, chunk[i])
}

/// `on_frame` has been handed what one byte's result calls for: the decoded
/// frame when one completed, the error when the frame failed.
pub open spec fn handed_on<F: for<'b> FnMut(Result<&'b [u8], DecodeError>)>(
    on_frame: F,
    step: (StreamDecoderView, Result<Option<usize>, DecodeError>),
) -> bool {
    match step.1 {
        Ok(Some(_)) => exists|x: Result<&[u8], DecodeError>|
            #[trigger] call_ensures(on_frame, (x,), ()) && (x matches Ok(frame) && frame@ == step.0.decoded()),
        Ok(None) => true,
        Err(e) => call_ensures(on_frame, (Err::<&[u8], DecodeError>(e),), ()),
    }
}

/// Feeding the first `i + 1` bytes of `chunk` is feeding the first `i` and
/// then byte `i`.
proof fn lemma_feed_all_step(st: StreamDecoderView, chunk: Seq<u8>, i: int)
    requires
        0 <= i < chunk.len(),
    ensures
        feed_all(st, chunk.take(i + 1)).0 == stream_step(st, chunk, i).0,
        feed_all(st, chunk.take(i + 1)).1 == feed_all(st, chunk.take(i)).1.push(stream_step(st, chunk, i).1),
{
    stream_decoder_chunking_is_invisible(st, chunk.take(i), seq![chunk[i]]);
    assert(chunk.take(i) + seq![chunk[i]] =~= chunk.take(i + 1));
    let mid = feed_all(st, chunk.take(i)).0;
    lemma_feed_one(mid, chunk[i]);
    assert(feed_all(st, chunk.take(i)).1 + seq![stream_step(st, chunk, i).1] =~= feed_all(st, chunk.take(i)).1.push(
        stream_step(st, chunk, i).1));
}

/// A result handed to a frame callback, by value.
pub open spec fn event_view(x: Result<&[u8], DecodeError>) -> Result<Seq<u8>, DecodeError> {
    match x {
        Ok(frame) => Ok(frame@),
        Err(e) => Err(e),
    }
}

/// What a stream decoder has to hand on while it is fed `bytes`, one byte at a
/// time from `st`: for every byte whose result is not `Ok(None)`, in order,
/// the frame it completed (what `decoded()` holds just after it) or the error
/// it reported.
pub open spec fn stream_events(st: StreamDecoderView, bytes: Seq<u8>) -> Seq<Result<Seq<u8>, DecodeError>>
    decreases bytes.len(),
{
    if bytes.len() == 0 {
        seq![]
    } else {
        let i = bytes.len() - 1;
        let step = feed_spec(feed_all(st, bytes.take(i)).0, bytes[i]);
        let before = stream_events(st, bytes.take(i));
        match step.1 {
            Ok(None) => before,
            Ok(Some(_)) => before.push(Ok(step.0.decoded())),
            Err(e) => before.push(Err(e)),
        }
    }
}

/// `step` can turn `s` into `t` when handed the event `e`.
pub open spec fn fold_step<S, G: for<'b> Fn(S, Result<&'b [u8], DecodeError>) -> S>(
    step: G,
    s: S,
    e: Result<Seq<u8>, DecodeError>,
    t: S,
) -> bool {
    exists|x: Result<&[u8], DecodeError>| #[trigger] call_ensures(step, (s, x), t) && event_view(x) == e
}

/// `states` is a run of `step` over `events`: one value more than there are
/// events, and each next value is what `step` can return for the previous
/// value and that event.
pub open spec fn fold_chain<S, G: for<'b> Fn(S, Result<&'b [u8], DecodeError>) -> S>(
    step: G,
    events: Seq<Result<Seq<u8>, DecodeError>>,
    states: Seq<S>,
) -> bool {
    &&& states.len() == events.len() + 1
    &&& forall|k: int| 0 <= k < events.len() ==> #[trigger] fold_step(step, states[k], events[k], states[k + 1])
}

/// A run extends by one event with one more call of `step`.
proof fn lemma_fold_chain_push<S, G: for<'b> Fn(S, Result<&'b [u8], DecodeError>) -> S>(
    step: G,
    events: Seq<Result<Seq<u8>, DecodeError>>,
    states: Seq<S>,
    e: Result<Seq<u8>, DecodeError>,
    x: Result<&[u8], DecodeError>,
    t: S,
)
    requires
        fold_chain(step, events, states),
        call_ensures(step, (states.last(), x), t),
        event_view(x) == e,
    ensures
        fold_chain(step, events.push(e), states.push(t)),
{
    let evs2 = events.push(e);
    let st2 = states.push(t);
    assert(fold_step(step, states.last(), e, t));
    assert forall|k: int| 0 <= k < evs2.len() implies #[trigger] fold_step(step, st2[k], evs2[k], st2[k + 1]) by {
        if k < events.len() {
            assert(fold_step(step, states[k], events[k], states[k + 1]));
            assert(evs2[k] == events[k]);
            assert(st2[k] == states[k] && st2[k + 1] == states[k + 1]);
        } else {
            assert(st2[k] == states.last() && st2[k + 1] == t && evs2[k] == e);
        }
    }
}

/// `out` is what calling `step` once per event, in order, starting from
/// `init`, can give.
pub open spec fn folds_to<S, G: for<'b> Fn(S, Result<&'b [u8], DecodeError>) -> S>(
    step: G,
    init: S,
    events: Seq<Result<Seq<u8>, DecodeError>>,
    out: S,
) -> bool {
    exists|states: Seq<S>| #[trigger] fold_chain(step, events, states) && states[0] == init && states.last() == out
}

/// The events of the first `i + 1` bytes are those of the first `i`, and
/// byte `i`'s frame or error if it has one.
proof fn lemma_stream_events_step(st: StreamDecoderView, chunk: Seq<u8>, i: int)
    requires
        0 <= i < chunk.len(),
    ensures
        stream_events(st, chunk.take(i + 1)) == (match stream_step(st, chunk, i).1 {
            Ok(None) => stream_events(st, chunk.take(i)),
            Ok(Some(_)) => stream_events(st, chunk.take(i)).push(Ok(stream_step(st, chunk, i).0.decoded())),
            Err(e) => stream_events(st, chunk.take(i)).push(Err(e)),
        }),
{
    assert(chunk.take(i + 1).take(i) =~= chunk.take(i));
    assert(chunk.take(i + 1)[i] == chunk[i]);
}

/// The events of a prefix of the bytes are a prefix of the events.
proof fn lemma_stream_events_prefix(st: StreamDecoderView, chunk: Seq<u8>, m: int)
    requires
        0 <= m <= chunk.len(),
    ensures
        stream_events(st, chunk.take(m)).len() <= stream_events(st, chunk).len(),
        stream_events(st, chunk).take(stream_events(st, chunk.take(m)).len() as int) == stream_events(st, chunk.take(m)),
    decreases chunk.len() - m,
{
    let all = stream_events(st, chunk);
    if m == chunk.len() {
        assert(chunk.take(m) =~= chunk);
        assert(all.take(all.len() as int) =~= all);
    } else {
        lemma_stream_events_prefix(st, chunk, m + 1);
        lemma_stream_events_step(st, chunk, m);
        let a = stream_events(st, chunk.take(m));
        let b = stream_events(st, chunk.take(m + 1));
        assert(b.take(a.len() as int) =~= a);
        assert(all.take(a.len() as int) =~= b.take(a.len() as int));
    }
}

// ---------------------------------------------------------------------------
// Laws of the stream decoders
// ---------------------------------------------------------------------------

/// `n` results that report nothing.
pub open spec fn quiet(n: nat) -> Seq<Result<Option<usize>, DecodeError>> {
    Seq::new(n, |i: int| Ok::<Option<usize>, DecodeError>(None))
}

/// The zero byte that a decoder owes for the block it last read: one exists
/// when that block's code is below 255.
pub open spec fn pending_zero(code: u8) -> Seq<u8> {
    if code != 0 && code < 255 {
        seq![0u8]
    } else {
        seq![]
    }
}

/// A state inside a frame that is being decoded.
pub open spec fn decoding(st: StreamDecoderView) -> bool {
    !st.complete && !st.discarding && st.wf()
}

proof fn lemma_xor_concat(a: Seq<u8>, b: Seq<u8>, k: u8)
    ensures
        xor_all(a + b, k) == xor_all(a, k) + xor_all(b, k),
{
    assert(xor_all(a + b, k) =~= xor_all(a, k) + xor_all(b, k));
}

/// How a byte stream is cut into chunks does not matter to a stream decoder:
/// feeding `a` then `b` leaves the state and gives the results that feeding
/// `a + b` does.
pub proof fn stream_decoder_chunking_is_invisible(st: StreamDecoderView, a: Seq<u8>, b: Seq<u8>)
    ensures
        feed_all(st, a + b) == (
            feed_all(feed_all(st, a).0, b).0,
            feed_all(st, a).1 + feed_all(feed_all(st, a).0, b).1,
        ),
    decreases a.len(),
{
    if a.len() > 0 {
        let first = feed_spec(st, a[0]);
        assert((a + b).drop_first() =~= a.drop_first() + b);
        assert((a + b)[0] == a[0]);
        stream_decoder_chunking_is_invisible(first.0, a.drop_first(), b);
        let r1 = feed_all(first.0, a.drop_first());
        let r2 = feed_all(r1.0, b);
        assert(seq![first.1] + (r1.1 + r2.1) =~= (seq![first.1] + r1.1) + r2.1);
    } else {
        assert(a + b =~= b);
        assert(seq![] + feed_all(st, b).1 =~= feed_all(st, b).1);
    }
}

/// Feeding the data bytes of a block, each combined with the sentinel.
proof fn lemma_feed_data(st: StreamDecoderView, d: Seq<u8>)
    requires
        decoding(st),
        zero_free(d),
        st.remaining >= d.len(),
        st.write_index + d.len() <= st.buf.len(),
    ensures
        ({
            let r = feed_all(st, xor_all(d, st.sentinel));
            &&& r.1 == quiet(d.len())
            &&& decoding(r.0)
            &&& r.0.buf.len() == st.buf.len()
            &&& r.0.write_index == st.write_index + d.len()
            &&& r.0.decoded() == st.decoded() + d
            &&& r.0.remaining == st.remaining - d.len()
            &&& r.0.code == st.code
            &&& r.0.code_index == st.code_index
            &&& st.read_index + d.len() < usize::MAX ==> r.0.read_index == st.read_index + d.len()
            &&& r.0.sentinel == st.sentinel
            &&& r.0.reduced == st.reduced
        }),
    decreases d.len(),
{
    let bytes = xor_all(d, st.sentinel);
    if d.len() == 0 {
        assert(st.decoded() + d =~= st.decoded());
        assert(quiet(0) =~= seq![]);
    } else {
        let b = bytes[0];
        let k = st.sentinel;
        let v = d[0];
        assert(b == v ^ k);
        assert(b != k && b ^ k == v) by (bit_vector)
            requires
                b == v ^ k,
                v != 0,
        ;
        let first = feed_spec(st, b);
        let s1 = first.0;
        assert(s1.decoded() =~= st.decoded().push(v));
        let rest = d.drop_first();
        assert forall|i: int| 0 <= i < rest.len() implies #[trigger] rest[i] != 0 by {
            assert(rest[i] == d[i + 1]);
        }
        assert(bytes.drop_first() =~= xor_all(rest, k));
        lemma_feed_data(s1, rest);
        assert(st.decoded().push(v) + rest =~= st.decoded() + d);
        assert(seq![first.1] + quiet(rest.len()) =~= quiet(d.len()));
    }
}

/// Feeding one block, code byte first, each byte combined with the sentinel.
proof fn lemma_feed_block(st: StreamDecoderView, c: u8, d: Seq<u8>)
    requires
        decoding(st),
        st.remaining == 0,
        c != 0,
        zero_free(d),
        d.len() + 1 <= c,
        st.write_index + pending_zero(st.code).len() + d.len() <= st.buf.len(),
    ensures
        ({
            let r = feed_all(st, xor_all(seq![c] + d, st.sentinel));
            &&& r.1 == quiet(d.len() + 1)
            &&& decoding(r.0)
            &&& r.0.buf.len() == st.buf.len()
            &&& r.0.write_index == st.write_index + pending_zero(st.code).len() + d.len()
            &&& r.0.decoded() == st.decoded() + pending_zero(st.code) + d
            &&& r.0.remaining == c - 1 - d.len()
            &&& r.0.code == c
            &&& r.0.sentinel == st.sentinel
            &&& r.0.reduced == st.reduced
        }),
{
    let k = st.sentinel;
    let bytes = xor_all(seq![c] + d, k);
    let b = bytes[0];
    assert(b == c ^ k);
    assert(b != k && b ^ k == c) by (bit_vector)
        requires
            b == c ^ k,
            c != 0,
    ;
    let first = feed_spec(st, b);
    let s1 = first.0;
    assert(s1.decoded() =~= st.decoded() + pending_zero(st.code));
    assert(bytes.drop_first() =~= xor_all(d, k));
    lemma_feed_data(s1, d);
    assert(seq![first.1] + quiet(d.len()) =~= quiet(d.len() + 1));
}

/// Feeding an encoding, byte by byte, combined with the sentinel: nothing is
/// reported, and the decoded bytes grow by the message, but for the byte a
/// COBS/R final block still holds in its code.
proof fn lemma_feed_encoding(st: StreamDecoderView, p: Seq<u8>)
    requires
        decoding(st),
        st.remaining == 0,
        st.write_index + pending_zero(st.code).len() + p.len() <= st.buf.len(),
    ensures
        ({
            let e = encode_blocks(p, st.reduced);
            let r = feed_all(st, xor_all(e, st.sentinel));
            &&& r.1 == quiet(e.len())
            &&& decoding(r.0)
            &&& r.0.buf.len() == st.buf.len()
            &&& r.0.sentinel == st.sentinel
            &&& r.0.reduced == st.reduced
            &&& r.0.remaining == 0 ==> r.0.decoded() == st.decoded() + pending_zero(st.code) + p
            &&& r.0.remaining > 0 ==> {
                &&& st.reduced
                &&& r.0.decoded().push(r.0.code) == st.decoded() + pending_zero(st.code) + p
                &&& r.0.write_index < r.0.buf.len()
            }
        }),
    decreases p.len(),
{
    let k = st.sentinel;
    let red = st.reduced;
    lemma_nonzero_prefix(p);
    let r = run_len(p);
    let e = encode_blocks(p, red);
    let pend = pending_zero(st.code);
    if r == 254 && p.len() > 254 {
        let t = p.take(254);
        let tail = p.skip(254);
        assert(zero_free(t));
        lemma_xor_concat(code_block(t), encode_blocks(tail, red), k);
        stream_decoder_chunking_is_invisible(st, xor_all(code_block(t), k), xor_all(encode_blocks(tail, red), k));
        lemma_feed_block(st, 255, t);
        let s1 = feed_all(st, xor_all(code_block(t), k)).0;
        lemma_feed_encoding(s1, tail);
        let s2 = feed_all(s1, xor_all(encode_blocks(tail, red), k));
        assert(pending_zero(255) =~= seq![]);
        assert(st.decoded() + pend + t + seq![] + tail =~= st.decoded() + pend + p);
        assert((st.decoded() + pend + t) + tail =~= st.decoded() + pend + p);
        assert(quiet(255) + quiet(encode_blocks(tail, red).len()) =~= quiet(e.len()));
    } else if r < p.len() {
        let t = p.take(r as int);
        let tail = p.skip(r + 1 as int);
        assert(zero_free(t));
        let c = (r + 1) as u8;
        lemma_xor_concat(code_block(t), encode_blocks(tail, red), k);
        stream_decoder_chunking_is_invisible(st, xor_all(code_block(t), k), xor_all(encode_blocks(tail, red), k));
        lemma_feed_block(st, c, t);
        let s1 = feed_all(st, xor_all(code_block(t), k)).0;
        lemma_feed_encoding(s1, tail);
        assert(pending_zero(c) =~= seq![0u8]);
        assert((st.decoded() + pend + t) + seq![0u8] + tail =~= st.decoded() + pend + p);
        assert(quiet(r + 1) + quiet(encode_blocks(tail, red).len()) =~= quiet(e.len()));
    } else if red && p.len() > 0 && p.last() as int >= p.len() + 1 {
        let t = p.drop_last();
        assert(zero_free(t));
        lemma_feed_block(st, p.last(), t);
        assert((st.decoded() + pend + t).push(p.last()) =~= st.decoded() + pend + p);
    } else {
        assert(zero_free(p));
        lemma_feed_block(st, (p.len() + 1) as u8, p);
    }
}

/// Feeding a state that holds a completed frame is feeding the state after
/// it gives way.
proof fn lemma_feed_all_begin(st: StreamDecoderView, bytes: Seq<u8>)
    requires
        bytes.len() > 0,
    ensures
        feed_all(st, bytes) == feed_all(st.begin(), bytes),
{
    assert(st.begin().begin() == st.begin());
}

/// Stream decoding inverts framing: a decoder at the start of a frame, with
/// room for the packet, fed the encoding of a packet (COBS or COBS/R as it is
/// configured, combined with its sentinel) and then the sentinel, reports
/// nothing until the sentinel, then the packet's length; the packet is then
/// `decoded()`, and the decoder is ready for the next frame.
pub proof fn stream_decoder_inverts_framing(st: StreamDecoderView, p: Seq<u8>)
    requires
        st.wf(),
        st.at_frame_start(),
        p.len() <= st.buf.len(),
    ensures
        ({
            let e = encode_blocks(p, st.reduced);
            let r = feed_all(st, xor_all(e, st.sentinel).push(st.sentinel));
            &&& r.1 == quiet(e.len()).push(Ok(Some(p.len() as usize)))
            &&& r.0.decoded() == p
            &&& r.0.at_frame_start()
            &&& r.0.wf()
            &&& r.0.buf.len() == st.buf.len()
            &&& r.0.sentinel == st.sentinel
            &&& r.0.reduced == st.reduced
        }),
{
    let k = st.sentinel;
    let e = encode_blocks(p, st.reduced);
    let x = xor_all(e, k);
    lemma_encode_nonempty(p, st.reduced);
    let s0 = st.begin();
    assert(s0.decoded() =~= seq![]);
    assert(pending_zero(0) =~= seq![]);
    lemma_feed_all_begin(st, x.push(k));
    stream_decoder_chunking_is_invisible(s0, x, seq![k]);
    assert(x + seq![k] =~= x.push(k));
    lemma_feed_encoding(s0, p);
    let s1 = feed_all(s0, x).0;
    assert(seq![] + pending_zero(0) + p =~= p);
    let last = feed_spec(s1, k);
    assert(feed_all(s1, seq![k]) == (feed_all(last.0, seq![k].drop_first()).0, seq![last.1] + feed_all(last.0, seq![k].drop_first()).1));
    assert(seq![k].drop_first() =~= seq![]);
    if s1.remaining > 0 {
        assert(last.0.decoded() =~= s1.decoded().push(s1.code));
    }
    assert(quiet(e.len()) + seq![last.1] =~= quiet(e.len()).push(Ok(Some(p.len() as usize))));
}

/// A decoder that skips an overflowing frame reports nothing up to the next
/// sentinel, and is then ready for the next frame.
pub proof fn stream_decoder_resumes_after_error(st: StreamDecoderView, junk: Seq<u8>)
    requires
        st.wf(),
        st.discarding,
        !st.complete,
        forall|i: int| 0 <= i < junk.len() ==> #[trigger] junk[i] != st.sentinel,
    ensures
        ({
            let r = feed_all(st, junk.push(st.sentinel));
            &&& r.1 == quiet(junk.len() + 1)
            &&& r.0.at_frame_start()
            &&& r.0.write_index == 0
            &&& r.0.sentinel == st.sentinel
            &&& r.0.reduced == st.reduced
        }),
    decreases junk.len(),
{
    let w = junk.push(st.sentinel);
    if junk.len() == 0 {
        assert(w[0] == st.sentinel);
        assert(w.drop_first() =~= seq![]);
        let first = feed_spec(st, w[0]);
        assert(feed_all(first.0, w.drop_first()) == (first.0, Seq::<Result<Option<usize>, DecodeError>>::empty()));
        assert(quiet(1) =~= seq![Ok::<Option<usize>, DecodeError>(None)]);
    } else {
        assert(w[0] == junk[0]);
        let first = feed_spec(st, junk[0]);
        assert(st.begin() == st);
        assert(first.0 == st);
        assert(junk.push(st.sentinel).drop_first() =~= junk.drop_first().push(st.sentinel));
        stream_decoder_resumes_after_error(st, junk.drop_first());
        assert(seq![first.1] + quiet(junk.len()) =~= quiet(junk.len() + 1));
    }
}

/// After any error, the decoder has dropped the frame: it is at the start of
/// the next frame, or skips to the next sentinel.
pub proof fn stream_decoder_error_drops_frame(st: StreamDecoderView, byte: u8)
    requires
        feed_spec(st, byte).1 is Err,
    ensures
        ({
            let s2 = feed_spec(st, byte).0;
            &&& s2.write_index == 0
            &&& s2.remaining == 0
            &&& s2.code == 0
            &&& !s2.complete
            &&& (s2.at_frame_start() || s2.discarding)
        }),
{
}

/// Scanning a run of non-delimiter bytes only buffers them.
proof fn lemma_scan_no_delimiter(buf: Seq<u8>, c: Seq<u8>, t: Seq<u8>, reduced: bool, skip_empty: bool)
    requires
        zero_free(c),
    ensures
        scan_frames(buf, c + t, reduced, skip_empty) == scan_frames(buf + c, t, reduced, skip_empty),
    decreases c.len(),
{
    if c.len() == 0 {
        assert(c + t =~= t);
        assert(buf + c =~= buf);
    } else {
        assert((c + t)[0] == c[0]);
        assert((c + t).drop_first() =~= c.drop_first() + t);
        assert(zero_free(c.drop_first())) by {
            assert forall|i: int| 0 <= i < c.drop_first().len() implies #[trigger] c.drop_first()[i] != 0 by {
                assert(c.drop_first()[i] == c[i + 1]);
            }
        }
        lemma_scan_no_delimiter(buf.push(c[0]), c.drop_first(), t, reduced, skip_empty);
        assert(buf.push(c[0]) + c.drop_first() =~= buf + c);
    }
}

/// After a delimiter at `j` with none later, scanning leaves buffered just
/// the bytes after `j`.
proof fn lemma_scan_after_last_delimiter(buf: Seq<u8>, chunk: Seq<u8>, j: int, reduced: bool, skip_empty: bool)
    requires
        0 <= j < chunk.len(),
        chunk[j] == DELIMITER,
        zero_free(chunk.skip(j + 1)),
    ensures
        scan_frames(buf, chunk, reduced, skip_empty).0 == chunk.skip(j + 1),
{
    let a = chunk.take(j);
    let d = seq![DELIMITER];
    let tail = chunk.skip(j + 1);
    assert(chunk =~= (a + d) + tail);
    lemma_scan_concat(buf, a + d, tail, reduced, skip_empty);
    lemma_scan_concat(buf, a, d, reduced, skip_empty);
    let x = scan_frames(buf, a, reduced, skip_empty).0;
    assert(d[0] == DELIMITER);
    assert(d.drop_first() =~= seq![]);
    assert(scan_frames(seq![], d.drop_first(), reduced, skip_empty).0 == Seq::<u8>::empty());
    assert(scan_frames(x, d, reduced, skip_empty).0 == Seq::<u8>::empty());
    lemma_scan_no_delimiter(seq![], tail, seq![], reduced, skip_empty);
    assert(tail + Seq::<u8>::empty() =~= tail);
    assert(Seq::<u8>::empty() + tail =~= tail);
}

/// With a bound on the frame length, a push keeps at most that many bytes of
/// an unterminated frame. The bytes left over after a push are those after
/// the chunk's last delimiter, or, when the chunk has none, what was buffered
/// followed by the whole chunk. When they are more than the bound they are
/// dropped and the push's last result is `FrameTooLong` with their number,
/// whether or not the chunk completed frames before them; otherwise they stay
/// buffered.
pub proof fn frame_decoder_bounds_unterminated_frame(st: FrameDecoderView, chunk: Seq<u8>)
    requires
        st.max_frame_len != 0,
        chunk.len() > 0,
    ensures
        push_spec(st, chunk).0.buf.len() <= st.max_frame_len,
        zero_free(chunk) ==> ({
            let left = st.buf + chunk;
            let r = push_spec(st, chunk);
            if left.len() > st.max_frame_len {
                &&& r.0.buf.len() == 0
                &&& r.1.len() > 0
                &&& r.1.last() == Err::<Seq<u8>, DecodeError>(DecodeError::FrameTooLong { len: left.len() as usize })
            } else {
                r.0.buf == left
            }
        }),
        forall|j: int|
            0 <= j < chunk.len() && #[trigger] chunk[j] == DELIMITER && zero_free(chunk.skip(j + 1)) ==> ({
                let left = chunk.skip(j + 1);
                let r = push_spec(st, chunk);
                if left.len() > st.max_frame_len {
                    &&& r.0.buf.len() == 0
                    &&& r.1.len() > 0
                    &&& r.1.last() == Err::<Seq<u8>, DecodeError>(DecodeError::FrameTooLong { len: left.len() as usize })
                } else {
                    r.0.buf == left
                }
            }),
{
    let scanned = scan_frames(st.buf, chunk, st.reduced, st.skip_empty);
    if zero_free(chunk) {
        lemma_scan_no_delimiter(st.buf, chunk, seq![], st.reduced, st.skip_empty);
        assert(chunk + Seq::<u8>::empty() =~= chunk);
        assert(scanned.0 == st.buf + chunk);
        assert(chunk.last() != DELIMITER) by {
            assert(chunk[chunk.len() - 1] != 0);
        }
    }
    if chunk.last() == DELIMITER {
        assert(zero_free(chunk.skip(chunk.len() as int))) by {
            assert(chunk.skip(chunk.len() as int).len() == 0);
        }
        lemma_scan_after_last_delimiter(st.buf, chunk, chunk.len() - 1, st.reduced, st.skip_empty);
        assert(chunk.skip(chunk.len() as int).len() == 0);
    }
    assert forall|j: int|
        0 <= j < chunk.len() && #[trigger] chunk[j] == DELIMITER && zero_free(chunk.skip(j + 1)) implies ({
            let left = chunk.skip(j + 1);
            let r = push_spec(st, chunk);
            if left.len() > st.max_frame_len {
                &&& r.0.buf.len() == 0
                &&& r.1.len() > 0
                &&& r.1.last() == Err::<Seq<u8>, DecodeError>(DecodeError::FrameTooLong { len: left.len() as usize })
            } else {
                r.0.buf == left
            }
        }) by {
        lemma_scan_after_last_delimiter(st.buf, chunk, j, st.reduced, st.skip_empty);
        if j < chunk.len() - 1 {
            assert(chunk.last() == chunk.skip(j + 1)[chunk.len() - j - 2]);
        }
    }
}

/// Frame decoding inverts framing: a frame decoder with nothing buffered, fed
/// the framed encoding of a packet (COBS or COBS/R as it is configured),
/// reports exactly that packet and buffers nothing.
pub proof fn frame_decoder_inverts_framing(st: FrameDecoderView, p: Seq<u8>)
    requires
        st.buf.len() == 0,
    ensures
        push_spec(st, encode_blocks(p, st.reduced).push(DELIMITER)) == (st, seq![Ok::<Seq<u8>, DecodeError>(p)]),
{
    let e = encode_blocks(p, st.reduced);
    lemma_encode_zero_free(p, st.reduced);
    lemma_encode_nonempty(p, st.reduced);
    lemma_decode_encode(p, 0, st.reduced);
    assert(e.push(DELIMITER) =~= e + seq![DELIMITER]);
    lemma_scan_no_delimiter(st.buf, e, seq![DELIMITER], st.reduced, st.skip_empty);
    assert(st.buf + e =~= e);
    assert(seq![DELIMITER].drop_first() =~= seq![]);
    let sc = scan_frames(e, seq![DELIMITER], st.reduced, st.skip_empty);
    assert(seq![DELIMITER][0] == DELIMITER);
    let empty_scan = scan_frames(seq![], seq![DELIMITER].drop_first(), st.reduced, st.skip_empty);
    assert(empty_scan == (Seq::<u8>::empty(), Seq::<Result<Seq<u8>, DecodeError>>::empty()));
    assert(frame_result(e, st.reduced) == Ok::<Seq<u8>, DecodeError>(p));
    assert(frame_events(e, st.reduced, st.skip_empty) =~= seq![Ok::<Seq<u8>, DecodeError>(p)]);
    assert(sc.1 =~= seq![Ok::<Seq<u8>, DecodeError>(p)]);
    assert(sc.0 =~= st.buf);
}

/// With no bound on the frame length, how a byte stream is cut into chunks
/// does not matter: pushing `a` then `b` reports what pushing `a + b` reports
/// and leaves the same state.
pub proof fn frame_decoder_chunking_is_invisible(st: FrameDecoderView, a: Seq<u8>, b: Seq<u8>)
    requires
        st.max_frame_len == 0,
    ensures
        push_spec(push_spec(st, a).0, b).0 == push_spec(st, a + b).0,
        push_spec(st, a).1 + push_spec(push_spec(st, a).0, b).1 == push_spec(st, a + b).1,
{
    lemma_scan_concat(st.buf, a, b, st.reduced, st.skip_empty);
}

proof fn lemma_scan_concat(buf: Seq<u8>, a: Seq<u8>, b: Seq<u8>, reduced: bool, skip_empty: bool)
    ensures
        scan_frames(buf, a + b, reduced, skip_empty) == (
            scan_frames(scan_frames(buf, a, reduced, skip_empty).0, b, reduced, skip_empty).0,
            scan_frames(buf, a, reduced, skip_empty).1 + scan_frames(scan_frames(buf, a, reduced, skip_empty).0, b, reduced, skip_empty).1,
        ),
    decreases a.len(),
{
    if a.len() == 0 {
        assert(a + b =~= b);
        assert(seq![] + scan_frames(buf, b, reduced, skip_empty).1 =~= scan_frames(buf, b, reduced, skip_empty).1);
    } else {
        assert((a + b)[0] == a[0]);
        assert((a + b).drop_first() =~= a.drop_first() + b);
        if a[0] != DELIMITER {
            lemma_scan_concat(buf.push(a[0]), a.drop_first(), b, reduced, skip_empty);
        } else {
            lemma_scan_concat(seq![], a.drop_first(), b, reduced, skip_empty);
            let ev = frame_events(buf, reduced, skip_empty);
            let r1 = scan_frames(seq![], a.drop_first(), reduced, skip_empty);
            let r2 = scan_frames(r1.0, b, reduced, skip_empty);
            assert(ev + (r1.1 + r2.1) =~= (ev + r1.1) + r2.1);
        }
    }
}

/// Results that report nothing but a buffer overflow.
pub open spec fn calm(evs: Seq<Result<Option<usize>, DecodeError>>) -> bool {
    forall|i: int| 0 <= i < evs.len() ==> #[trigger] evs[i] == Ok::<Option<usize>, DecodeError>(None)
        || evs[i] == Err::<Option<usize>, DecodeError>(DecodeError::OutputTooSmall)
}

/// Results that report a buffer overflow, and nothing else.
pub open spec fn overflowed(evs: Seq<Result<Option<usize>, DecodeError>>) -> bool {
    &&& calm(evs)
    &&& exists|i: int| 0 <= i < evs.len() && #[trigger] evs[i] == Err::<Option<usize>, DecodeError>(DecodeError::OutputTooSmall)
}

proof fn lemma_overflowed_concat(a: Seq<Result<Option<usize>, DecodeError>>, b: Seq<Result<Option<usize>, DecodeError>>)
    requires
        (overflowed(a) && calm(b)) || (calm(a) && overflowed(b)),
    ensures
        overflowed(a + b),
{
    let c = a + b;
    assert forall|i: int| 0 <= i < c.len() implies #[trigger] c[i] == Ok::<Option<usize>, DecodeError>(None)
        || c[i] == Err::<Option<usize>, DecodeError>(DecodeError::OutputTooSmall) by {
        if i < a.len() {
            assert(c[i] == a[i]);
        } else {
            assert(c[i] == b[i - a.len()]);
        }
    }
    if overflowed(a) && calm(b) {
        let i = choose|i: int| 0 <= i < a.len() && #[trigger] a[i] == Err::<Option<usize>, DecodeError>(DecodeError::OutputTooSmall);
        assert(c[i] == a[i]);
    } else {
        let i = choose|i: int| 0 <= i < b.len() && #[trigger] b[i] == Err::<Option<usize>, DecodeError>(DecodeError::OutputTooSmall);
        assert(c[a.len() + i] == b[i]);
    }
}

proof fn lemma_quiet_calm(n: nat)
    ensures
        calm(quiet(n)),
{
}

/// A decoder skipping a frame ignores every byte but the sentinel.
proof fn lemma_skip_quiet(st: StreamDecoderView, junk: Seq<u8>)
    requires
        st.discarding,
        !st.complete,
        forall|i: int| 0 <= i < junk.len() ==> #[trigger] junk[i] != st.sentinel,
    ensures
        feed_all(st, junk) == (st, quiet(junk.len())),
    decreases junk.len(),
{
    if junk.len() == 0 {
        assert(quiet(0) =~= seq![]);
    } else {
        assert(st.begin() == st);
        let rest = junk.drop_first();
        assert forall|i: int| 0 <= i < rest.len() implies #[trigger] rest[i] != st.sentinel by {
            assert(rest[i] == junk[i + 1]);
        }
        lemma_skip_quiet(st, rest);
        assert(seq![Ok::<Option<usize>, DecodeError>(None)] + quiet(rest.len()) =~= quiet(junk.len()));
    }
}

/// Feeding data bytes that do not fit: the buffer overflows and the frame is
/// skipped.
proof fn lemma_feed_data_overflow(st: StreamDecoderView, d: Seq<u8>)
    requires
        decoding(st),
        zero_free(d),
        st.remaining >= d.len(),
        st.write_index + d.len() > st.buf.len(),
    ensures
        ({
            let r = feed_all(st, xor_all(d, st.sentinel));
            &&& r.0.discarding
            &&& !r.0.complete
            &&& r.0.write_index == 0
            &&& r.0.sentinel == st.sentinel
            &&& r.0.reduced == st.reduced
            &&& overflowed(r.1)
        }),
    decreases d.len(),
{
    let k = st.sentinel;
    let bytes = xor_all(d, k);
    let b = bytes[0];
    let v = d[0];
    assert(b == v ^ k);
    assert(b != k && b ^ k == v) by (bit_vector)
        requires
            b == v ^ k,
            v != 0,
    ;
    let first = feed_spec(st, b);
    let rest = d.drop_first();
    assert forall|i: int| 0 <= i < rest.len() implies #[trigger] rest[i] != 0 by {
        assert(rest[i] == d[i + 1]);
    }
    assert(bytes.drop_first() =~= xor_all(rest, k));
    if st.write_index == st.buf.len() {
        assert(first.1 == Err::<Option<usize>, DecodeError>(DecodeError::OutputTooSmall));
        let junk = xor_all(rest, k);
        assert forall|i: int| 0 <= i < junk.len() implies #[trigger] junk[i] != k by {
            let w = rest[i];
            assert(w != 0 ==> w ^ k != k) by (bit_vector);
        }
        lemma_skip_quiet(first.0, junk);
        lemma_quiet_calm(junk.len());
        assert(overflowed(seq![first.1])) by {
            assert(seq![first.1][0] == first.1);
        }
        lemma_overflowed_concat(seq![first.1], quiet(junk.len()));
    } else {
        lemma_feed_data_overflow(first.0, rest);
        assert(calm(seq![first.1])) by {
            assert(seq![first.1][0] == first.1);
        }
        lemma_overflowed_concat(seq![first.1], feed_all(first.0, bytes.drop_first()).1);
    }
}

/// What a frame's decoding owes the caller at its delimiter, given the
/// output length when it succeeds.
pub open spec fn frame_outcome(err: Option<DecodeError>, n: nat) -> Result<Option<usize>, DecodeError> {
    match err {
        None => Ok(Some(n as usize)),
        Some(e) => Err(e),
    }
}

proof fn lemma_feed_one(st: StreamDecoderView, b: u8)
    ensures
        feed_all(st, seq![b]) == (feed_spec(st, b).0, seq![feed_spec(st, b).1]),
{
    assert(seq![b].drop_first() =~= seq![]);
    assert(seq![b][0] == b);
    let f = feed_spec(st, b);
    assert(feed_all(f.0, seq![b].drop_first()) == (f.0, Seq::<Result<Option<usize>, DecodeError>>::empty()));
    assert(seq![f.1] + Seq::<Result<Option<usize>, DecodeError>>::empty() =~= seq![f.1]);
}

/// Feeding the code byte and the data bytes of the block at position `pos`:
/// either the buffer overflows and the rest of the frame is skipped, or the
/// decoder ends in state `s2`, having written the owed zero and the data, and
/// the rest of the frame is fed from there.
proof fn lemma_feed_block_start(st: StreamDecoderView, x: Seq<u8>, pos: nat) -> (s2: StreamDecoderView)
    requires
        decoding(st),
        st.remaining == 0,
        st.read_index == pos,
        pos + x.len() < usize::MAX,
        x.len() > 0,
        zero_free(x),
    ensures
        ({
            let k = st.sentinel;
            let data = block_data(x);
            let pend = pending_zero(st.code);
            let tail = xor_all(x.skip(1 + data.len() as int), k).push(k);
            let r = feed_all(st, xor_all(x, k).push(k));
            &&& zero_free(data)
            &&& nonzero_prefix_len(data) == data.len()
            &&& st.write_index + pend.len() + data.len() > st.buf.len() ==> {
                &&& r.0.at_frame_start()
                &&& r.0.wf()
                &&& r.0.sentinel == k
                &&& r.0.reduced == st.reduced
                &&& overflowed(r.1)
            }
            &&& st.write_index + pend.len() + data.len() <= st.buf.len() ==> {
                &&& decoding(s2)
                &&& s2.buf.len() == st.buf.len()
                &&& s2.write_index == st.write_index + pend.len() + data.len()
                &&& s2.decoded() == st.decoded() + pend + data
                &&& s2.remaining == x[0] - 1 - data.len()
                &&& s2.code == x[0]
                &&& s2.code_index == pos
                &&& s2.read_index == pos + 1 + data.len()
                &&& s2.sentinel == k
                &&& s2.reduced == st.reduced
                &&& r.0 == feed_all(s2, tail).0
                &&& r.1 == quiet(data.len() + 1) + feed_all(s2, tail).1
            }
        }),
{
    let k = st.sentinel;
    let c = x[0];
    let data = block_data(x);
    let len_d = data.len();
    let pend = pending_zero(st.code);
    let raw = xor_all(x, k);
    let wire = raw.push(k);
    let tail_x = x.skip(1 + len_d as int);
    let tail = xor_all(tail_x, k).push(k);
    lemma_xor_avoids(x, k);
    assert forall|i: int| 0 <= i < len_d implies #[trigger] data[i] != 0 by {
        assert(data[i] == x[i + 1]);
    }
    lemma_nonzero_prefix_is(data, len_d);
    assert(wire =~= seq![raw[0]] + (xor_all(data, k) + tail));
    stream_decoder_chunking_is_invisible(st, seq![raw[0]], xor_all(data, k) + tail);
    lemma_feed_one(st, raw[0]);
    let b0 = raw[0];
    assert(b0 == c ^ k);
    assert(b0 != k && b0 ^ k == c) by (bit_vector)
        requires
            b0 == c ^ k,
            c != 0,
    ;
    let first = feed_spec(st, b0);
    let s1 = first.0;
    let after_code = xor_all(data, k) + tail;
    let r = feed_all(st, wire);
    let r1 = feed_all(s1, after_code);
    assert(r.0 == r1.0 && r.1 == seq![first.1] + r1.1);
    assert forall|i: int| 0 <= i < raw.drop_first().len() implies #[trigger] raw.drop_first()[i] != k by {
        assert(raw.drop_first()[i] == raw[i + 1]);
    }
    if pend.len() == 1 && st.write_index == st.buf.len() {
        assert(after_code =~= raw.drop_first().push(k));
        stream_decoder_resumes_after_error(s1, raw.drop_first());
        assert(overflowed(seq![first.1])) by {
            assert(seq![first.1][0] == first.1);
        }
        lemma_quiet_calm(raw.drop_first().len() + 1);
        lemma_overflowed_concat(seq![first.1], quiet(raw.drop_first().len() + 1));
        return st;
    }
    assert(s1.decoded() =~= st.decoded() + pend);
    stream_decoder_chunking_is_invisible(s1, xor_all(data, k), tail);
    let r_data = feed_all(s1, xor_all(data, k));
    let r_tail = feed_all(r_data.0, tail);
    assert(r1.0 == r_tail.0 && r1.1 == r_data.1 + r_tail.1);
    assert(first.1 == Ok::<Option<usize>, DecodeError>(None));
    if s1.write_index + len_d > s1.buf.len() {
        lemma_feed_data_overflow(s1, data);
        let s2 = r_data.0;
        assert forall|i: int| 0 <= i < xor_all(tail_x, k).len() implies #[trigger] xor_all(tail_x, k)[i] != k by {
            assert(xor_all(tail_x, k)[i] == raw[1 + len_d + i]);
        }
        stream_decoder_resumes_after_error(s2, xor_all(tail_x, k));
        lemma_quiet_calm(tail_x.len() + 1);
        assert(calm(seq![first.1])) by {
            assert(seq![first.1][0] == first.1);
        }
        lemma_overflowed_concat(r_data.1, quiet(tail_x.len() + 1));
        lemma_overflowed_concat(seq![first.1], r_data.1 + quiet(tail_x.len() + 1));
        return st;
    }
    lemma_feed_data(s1, data);
    let s2 = r_data.0;
    assert(seq![first.1] + quiet(len_d) =~= quiet(len_d + 1));
    assert(seq![first.1] + (quiet(len_d) + r_tail.1) =~= (seq![first.1] + quiet(len_d)) + r_tail.1);
    s2
}

/// Feeding the rest of a frame, from the code byte of a block at position
/// `pos` up to and including the sentinel: the decoder writes what the slice
/// decoder writes and reports what it reports, or overflows its buffer and
/// reports just that.
proof fn lemma_feed_frame_rest(st: StreamDecoderView, x: Seq<u8>, pos: nat)
    requires
        decoding(st),
        st.remaining == 0,
        st.read_index == pos,
        pos + x.len() < usize::MAX,
        x.len() > 0,
        zero_free(x),
    ensures
        ({
            let k = st.sentinel;
            let dd = decode_blocks(x, pos, st.reduced);
            let w = pending_zero(st.code) + dd.0;
            let r = feed_all(st, xor_all(x, k).push(k));
            &&& r.0.at_frame_start()
            &&& r.0.wf()
            &&& r.0.sentinel == k
            &&& r.0.reduced == st.reduced
            &&& st.write_index + w.len() <= st.buf.len() ==> {
                &&& r.1 == quiet(x.len()).push(frame_outcome(dd.1, st.write_index + w.len()))
                &&& dd.1 is None ==> r.0.decoded() == st.decoded() + w
            }
            &&& st.write_index + w.len() > st.buf.len() ==> overflowed(r.1)
        }),
    decreases x.len(),
{
    let k = st.sentinel;
    let red = st.reduced;
    let c = x[0];
    let data = block_data(x);
    let len_d = data.len();
    let pend = pending_zero(st.code);
    let dd = decode_blocks(x, pos, red);
    let w = pend + dd.0;
    let tail_x = x.skip(1 + len_d as int);
    let tail = xor_all(tail_x, k).push(k);
    let s2 = lemma_feed_block_start(st, x, pos);
    assert(dd.0.len() >= len_d);
    if st.write_index + pend.len() + len_d > st.buf.len() {
        return;
    }
    let r = feed_all(st, xor_all(x, k).push(k));
    let r_tail = feed_all(s2, tail);
    if c as int >= x.len() {
        assert(tail_x =~= seq![]);
        assert(tail =~= seq![k]);
        lemma_feed_one(s2, k);
        let last = feed_spec(s2, k);
        if c as int > x.len() && red {
            if s2.write_index < s2.buf.len() {
                assert(last.0.decoded() =~= s2.decoded().push(c));
                assert(w =~= pend + data.push(c));
                assert(st.decoded() + pend + data.push(c) =~= (st.decoded() + pend + data).push(c));
            } else {
                assert(overflowed(seq![last.1])) by {
                    assert(seq![last.1][0] == last.1);
                }
                lemma_quiet_calm(len_d + 1);
                lemma_overflowed_concat(quiet(len_d + 1), seq![last.1]);
            }
        } else {
            assert(w =~= pend + data);
        }
        assert(quiet(len_d + 1) + seq![last.1] =~= quiet(x.len()).push(last.1));
    } else {
        let x2 = x.skip(c as int);
        assert(tail_x =~= x2);
        assert(tail =~= xor_all(x2, k).push(k));
        assert forall|i: int| 0 <= i < x2.len() implies #[trigger] x2[i] != 0 by {
            assert(x2[i] == x[i + c]);
        }
        lemma_feed_frame_rest(s2, x2, (pos + c) as nat);
        let dd2 = decode_blocks(x2, (pos + c) as nat, red);
        let r2 = feed_all(s2, xor_all(x2, k).push(k));
        assert(pending_zero(c) == separator(c));
        assert(w =~= pend + data + (pending_zero(c) + dd2.0));
        if st.write_index + w.len() <= st.buf.len() {
            assert(quiet(len_d + 1) + r2.1 =~= quiet(x.len()).push(frame_outcome(dd.1, st.write_index + w.len())));
            assert(st.decoded() + pend + data + (pending_zero(c) + dd2.0) =~= st.decoded() + w);
        } else {
            lemma_quiet_calm(len_d + 1);
            lemma_overflowed_concat(quiet(len_d + 1), r2.1);
        }
    }
}

/// A stream decoder agrees with the slice decoders on every frame: at the
/// start of a frame, fed any bytes other than its sentinel and then the
/// sentinel, it reports nothing until the sentinel, and there what the slice
/// decoder (`cobs::decode_with_sentinel`, or `cobsr` when reduced) returns
/// for those bytes, the same decoded bytes and the same `Truncated` position;
/// when the decoded bytes do not fit its buffer, it reports `OutputTooSmall`
/// and nothing else. Either way it is then ready for the next frame.
pub proof fn stream_decoder_agrees_with_slice_decoder(st: StreamDecoderView, f: Seq<u8>)
    requires
        st.wf(),
        st.at_frame_start(),
        f.len() < usize::MAX,
        forall|i: int| 0 <= i < f.len() ==> #[trigger] f[i] != st.sentinel,
    ensures
        ({
            let run = decode_run(f, st.sentinel, st.reduced);
            let r = feed_all(st, f.push(st.sentinel));
            &&& r.0.at_frame_start()
            &&& run.0.len() <= st.buf.len() ==> {
                &&& r.1 == quiet(f.len()).push(frame_outcome(run.1, run.0.len()))
                &&& r.1.last() == match decode_outcome(run, st.buf.len()) {
                    Ok(n) => Ok::<Option<usize>, DecodeError>(Some(n)),
                    Err(e) => Err(e),
                }
                &&& run.1 is None ==> r.0.decoded() == run.0
            }
            &&& run.0.len() > st.buf.len() ==> overflowed(r.1)
        }),
{
    let k = st.sentinel;
    let x = xor_all(f, k);
    lemma_xor_twice(f, k);
    assert forall|i: int| 0 <= i < x.len() implies #[trigger] x[i] != 0 by {
        let b = f[i];
        assert(b != k ==> b ^ k != 0) by (bit_vector);
    }
    let s0 = st.begin();
    assert(s0.decoded() =~= seq![]);
    assert(pending_zero(0) =~= seq![]);
    assert(seq![] + decode_run(f, k, st.reduced).0 =~= decode_run(f, k, st.reduced).0);
    if f.len() == 0 {
        assert(f.push(k) =~= seq![k]);
        lemma_feed_one(st, k);
        assert(quiet(0).push(Ok::<Option<usize>, DecodeError>(Some(0))) =~= seq![Ok::<Option<usize>, DecodeError>(Some(0))]);
        assert(st.begin().decoded() =~= seq![]);
    } else {
        lemma_feed_all_begin(st, f.push(k));
        lemma_feed_frame_rest(s0, x, 0);
    }
}

/// A packet as it goes on the wire: its encoding (COBS/R when `reduced`)
/// combined with the sentinel, then the sentinel.
pub open spec fn framed_packet(p: Seq<u8>, sentinel: u8, reduced: bool) -> Seq<u8> {
    xor_all(encode_blocks(p, reduced), sentinel).push(sentinel)
}

/// Packets framed one after another.
pub open spec fn framed_stream(ps: Seq<Seq<u8>>, sentinel: u8, reduced: bool) -> Seq<u8>
    decreases ps.len(),
{
    if ps.len() == 0 {
        seq![]
    } else {
        framed_stream(ps.drop_last(), sentinel, reduced) + framed_packet(ps.last(), sentinel, reduced)
    }
}

/// What a stream decoder reports on framed packets: nothing until each
/// packet's sentinel, and there the packet's length.
pub open spec fn frame_reports(ps: Seq<Seq<u8>>, reduced: bool) -> Seq<Result<Option<usize>, DecodeError>>
    decreases ps.len(),
{
    if ps.len() == 0 {
        seq![]
    } else {
        frame_reports(ps.drop_last(), reduced) + quiet(encode_blocks(ps.last(), reduced).len()).push(
            Ok(Some(ps.last().len() as usize)))
    }
}

/// A stream decoder reassembles a stream of framed packets: at the start of
/// a frame, with room for each packet, fed the packets framed one after
/// another, it reports each packet's length at that packet's sentinel and
/// nothing else, the packet is then `decoded()` (and so what `push` hands on),
/// and it ends ready for the next frame.
#[verifier::spinoff_prover]
pub proof fn stream_decoder_reassembles_frames(st: StreamDecoderView, ps: Seq<Seq<u8>>)
    requires
        st.wf(),
        st.at_frame_start(),
        forall|i: int| 0 <= i < ps.len() ==> (#[trigger] ps[i]).len() <= st.buf.len(),
    ensures
        ({
            let wire = framed_stream(ps, st.sentinel, st.reduced);
            let r = feed_all(st, wire);
            &&& r.1 == frame_reports(ps, st.reduced)
            &&& r.0.at_frame_start()
            &&& r.0.wf()
            &&& r.0.buf.len() == st.buf.len()
            &&& r.0.sentinel == st.sentinel
            &&& r.0.reduced == st.reduced
            &&& forall|i: int| #![trigger ps[i]] 0 <= i < ps.len() ==> {
                let end = framed_stream(ps.take(i + 1), st.sentinel, st.reduced).len() - 1;
                let step = stream_step(st, wire, end);
                &&& step.1 == Ok::<Option<usize>, DecodeError>(Some(ps[i].len() as usize))
                &&& step.0.decoded() == ps[i]
            }
        }),
    decreases ps.len(),
{
    let k = st.sentinel;
    let red = st.reduced;
    let wire = framed_stream(ps, k, red);
    if ps.len() == 0 {
        assert(quiet(0) =~= seq![]);
    } else {
        let front = ps.drop_last();
        assert forall|i: int| 0 <= i < front.len() implies (#[trigger] front[i]).len() <= st.buf.len() by {
            assert(front[i] == ps[i]);
        }
        stream_decoder_reassembles_frames(st, front);
        let w1 = framed_stream(front, k, red);
        let f = framed_packet(ps.last(), k, red);
        let mid = feed_all(st, w1).0;
        assert(ps[ps.len() - 1] == ps.last());
        stream_decoder_inverts_framing(mid, ps.last());
        stream_decoder_chunking_is_invisible(st, w1, f);
        assert forall|i: int| #![trigger ps[i]] 0 <= i < ps.len() implies {
            let end = framed_stream(ps.take(i + 1), k, red).len() - 1;
            let step = stream_step(st, wire, end);
            &&& step.1 == Ok::<Option<usize>, DecodeError>(Some(ps[i].len() as usize))
            &&& step.0.decoded() == ps[i]
        } by {
            let end = framed_stream(ps.take(i + 1), k, red).len() - 1;
            if i < ps.len() - 1 {
                assert(ps.take(i + 1) =~= front.take(i + 1));
                assert(front[i] == ps[i]);
                lemma_framed_stream_prefix(front, i + 1, k, red);
                assert(wire.take(end) =~= w1.take(end));
                assert(wire[end] == w1[end]);
            } else {
                assert(ps.take(i + 1) =~= ps);
                let j = f.len() - 1;
                assert(wire.take(end) =~= w1 + f.take(j));
                assert(wire[end] == f[j]);
                stream_decoder_chunking_is_invisible(st, w1, f.take(j));
                lemma_feed_all_step(mid, f, j);
                assert(f.take(j + 1) =~= f);
                let rf = feed_all(mid, f);
                assert(rf.1.last() == Ok::<Option<usize>, DecodeError>(Some(ps[i].len() as usize)));
            }
        }
    }
}

/// `push` hands each packet of a stream of framed packets to its callback:
/// where `on_frame` has been handed what every byte of the stream calls for
/// (what `push` ensures), it has been called with `Ok` and each packet.
pub proof fn stream_decoder_push_hands_on_packets<F: for<'b> FnMut(Result<&'b [u8], DecodeError>)>(
    st: StreamDecoderView,
    ps: Seq<Seq<u8>>,
    on_frame: F,
)
    requires
        st.wf(),
        st.at_frame_start(),
        forall|i: int| 0 <= i < ps.len() ==> (#[trigger] ps[i]).len() <= st.buf.len(),
        forall|j: int| #![trigger stream_step(st, framed_stream(ps, st.sentinel, st.reduced), j)]
            0 <= j < framed_stream(ps, st.sentinel, st.reduced).len()
            ==> handed_on(on_frame, stream_step(st, framed_stream(ps, st.sentinel, st.reduced), j)),
    ensures
        forall|i: int| #![trigger ps[i]] 0 <= i < ps.len() ==> exists|x: Result<&[u8], DecodeError>|
            #[trigger] call_ensures(on_frame, (x,), ()) && (x matches Ok(frame) && frame@ == ps[i]),
{
    let wire = framed_stream(ps, st.sentinel, st.reduced);
    stream_decoder_reassembles_frames(st, ps);
    assert forall|i: int| #![trigger ps[i]] 0 <= i < ps.len() implies exists|x: Result<&[u8], DecodeError>|
        #[trigger] call_ensures(on_frame, (x,), ()) && (x matches Ok(frame) && frame@ == ps[i]) by {
        let front = ps.take(i + 1);
        let end = framed_stream(front, st.sentinel, st.reduced).len() - 1;
        lemma_framed_stream_prefix(ps, i + 1, st.sentinel, st.reduced);
        assert(front.len() > 0);
        assert(framed_stream(front, st.sentinel, st.reduced).len() >= framed_packet(front.last(), st.sentinel, st.reduced).len());
        assert(0 <= end < wire.len());
        let step = stream_step(st, wire, end);
        assert(handed_on(on_frame, step));
        assert(step.1 == Ok::<Option<usize>, DecodeError>(Some(ps[i].len() as usize)));
    }
}

/// The frames of a prefix of the packets are a prefix of the stream.
proof fn lemma_framed_stream_prefix(ps: Seq<Seq<u8>>, n: int, sentinel: u8, reduced: bool)
    requires
        0 <= n <= ps.len(),
    ensures
        framed_stream(ps.take(n), sentinel, reduced).len() <= framed_stream(ps, sentinel, reduced).len(),
        framed_stream(ps, sentinel, reduced).take(framed_stream(ps.take(n), sentinel, reduced).len() as int)
            == framed_stream(ps.take(n), sentinel, reduced),
    decreases ps.len(),
{
    let w = framed_stream(ps, sentinel, reduced);
    if n == ps.len() {
        assert(ps.take(n) =~= ps);
        assert(w.take(w.len() as int) =~= w);
    } else {
        let front = ps.drop_last();
        assert(front.take(n) =~= ps.take(n));
        lemma_framed_stream_prefix(front, n, sentinel, reduced);
        let wf = framed_stream(front, sentinel, reduced);
        let wn = framed_stream(ps.take(n), sentinel, reduced);
        assert(w.take(wn.len() as int) =~= wf.take(wn.len() as int));
    }
}

} // verus!
