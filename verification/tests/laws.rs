// Concrete checks of the library's documented examples, laws and error cases.

use cobs_codec_rs::framing::{frame, frame_to_vec, FrameDecoder, StreamDecoder};
use cobs_codec_rs::{cobs, cobsr, encoding_overhead, max_encoded_len, DecodeError, DELIMITER, MAX_BLOCK_LEN};

#[test]
fn readme_slice_encode() {
    let src = [0x11, 0x00, 0x22];
    let mut buf = [0u8; 16];
    let n = cobs::encode(&src, &mut buf);
    assert_eq!(&buf[..n], &[0x02, 0x11, 0x02, 0x22]);
}

#[test]
fn readme_to_vec_round_trip() {
    let encoded = cobs::encode_to_vec(&[0x11, 0x22, 0x00, 0x33]);
    assert_eq!(encoded, [0x03, 0x11, 0x22, 0x02, 0x33]);
    assert_eq!(cobs::decode_to_vec(&encoded).unwrap(), [0x11, 0x22, 0x00, 0x33]);
    assert_eq!(cobsr::encode_to_vec(b"12345"), b"51234");
}

#[test]
fn readme_sentinel_example() {
    let encoded = cobs::encode_to_vec_with_sentinel(&[0x11, 0xAA, 0x22], 0xAA);
    assert_eq!(encoded, [0xAE, 0xBB, 0x00, 0x88]);
    assert_eq!(
        cobs::decode_to_vec_with_sentinel(&encoded, 0xAA).unwrap(),
        [0x11, 0xAA, 0x22]
    );
}

#[test]
fn readme_decode_in_place() {
    let mut buf = [0x03, 0x11, 0x22, 0x02, 0x33];
    let len = cobs::decode_in_place(&mut buf).unwrap();
    assert_eq!(&buf[..len], &[0x11, 0x22, 0x00, 0x33]);
    // The bytes after the decoded ones are left as they were.
    assert_eq!(&buf[len..], &[0x33]);
}

#[test]
fn readme_stream_with_sentinel() {
    let mut wire = [0u8; 16];
    let n = cobs::encode_with_sentinel(&[0x11, 0x00, 0x22], &mut wire, 0xAA);
    wire[n] = 0xAA;
    let mut scratch = [0u8; 8];
    let mut decoder = StreamDecoder::new(&mut scratch).sentinel(0xAA);
    let mut out = [0u8; 8];
    let mut out_len = 0;
    decoder.push(&wire[..n + 1], |frame| {
        let frame = frame.unwrap();
        out[..frame.len()].copy_from_slice(frame);
        out_len = frame.len();
    });
    assert_eq!(&out[..out_len], &[0x11, 0x00, 0x22]);
}

#[test]
fn size_helper_formula() {
    assert_eq!(MAX_BLOCK_LEN, 254);
    assert_eq!(encoding_overhead(1), 1);
    assert_eq!(encoding_overhead(508), 2);
    assert_eq!(encoding_overhead(509), 3);
    assert_eq!(max_encoded_len(1), 2);
    assert_eq!(max_encoded_len(508), 510);
    for n in 1..3000usize {
        let o = encoding_overhead(n);
        // ceil(n / 254)
        assert!(o * 254 >= n && (o - 1) * 254 < n);
        assert_eq!(max_encoded_len(n), n + o);
    }
}

#[test]
fn encode_leaves_the_rest_of_the_buffer() {
    let mut buf = [0xEEu8; 12];
    let n = cobs::encode(&[0x00, 0x05], &mut buf);
    assert_eq!(&buf[..n], &[0x01, 0x02, 0x05]);
    assert!(buf[n..].iter().all(|&b| b == 0xEE));

    let mut buf = [0xEEu8; 12];
    let n = cobsr::encode(&[0x00, 0x05], &mut buf);
    assert_eq!(&buf[..n], &[0x01, 0x05]);
    // COBS/R writes no further than basic COBS would.
    assert!(buf[3..].iter().all(|&b| b == 0xEE));
}

#[test]
fn decode_error_zero_byte_index() {
    assert_eq!(cobs::decode_to_vec(&[0x02, 0x00]), Err(DecodeError::ZeroByte { index: 1 }));
    assert_eq!(cobs::decode_to_vec(&[0x01, 0x00]), Err(DecodeError::ZeroByte { index: 1 }));
    assert_eq!(cobsr::decode_to_vec(&[0x03, 0x11, 0x00]), Err(DecodeError::ZeroByte { index: 2 }));
    assert_eq!(
        cobs::decode_to_vec_with_sentinel(&[0x03, 0xAA], 0xAA),
        Err(DecodeError::ZeroByte { index: 1 })
    );
}

#[test]
fn decode_error_truncated_index() {
    assert_eq!(cobs::decode_to_vec(&[0x05, 1, 2, 3]), Err(DecodeError::Truncated { index: 0 }));
    assert_eq!(
        cobs::decode_to_vec(&[0x02, 0x11, 0x05, 1]),
        Err(DecodeError::Truncated { index: 2 })
    );
    // The same bytes are a reduced final block in COBS/R.
    assert_eq!(cobsr::decode_to_vec(&[0x05, 1, 2, 3]).unwrap(), [1, 2, 3, 5]);
}

#[test]
fn decode_error_output_too_small() {
    let mut dst = [0xEEu8; 1];
    assert_eq!(cobs::decode(&[0x03, 0x11, 0x22], &mut dst), Err(DecodeError::OutputTooSmall));
    // The bytes that fit were written.
    assert_eq!(dst, [0x11]);
    let mut dst = [0u8; 2];
    assert_eq!(cobsr::decode(&[0x09, 0x11, 0x22], &mut dst), Err(DecodeError::OutputTooSmall));
}

#[test]
fn decode_writes_partial_output_before_an_error() {
    let mut dst = [0xEEu8; 6];
    assert_eq!(
        cobs::decode(&[0x03, 0x11, 0x00], &mut dst),
        Err(DecodeError::ZeroByte { index: 2 })
    );
    assert_eq!(dst, [0x11, 0xEE, 0xEE, 0xEE, 0xEE, 0xEE]);
}

#[test]
fn cobsr_in_place() {
    let enc = cobsr::encode_to_vec(b"12345");
    let mut buf = enc.clone();
    let n = cobsr::decode_in_place(&mut buf).unwrap();
    assert_eq!(&buf[..n], b"12345");
    let enc = cobsr::encode_to_vec_with_sentinel(b"a\x00b", 0x61);
    let mut buf = enc.clone();
    let n = cobsr::decode_in_place_with_sentinel(&mut buf, 0x61).unwrap();
    assert_eq!(&buf[..n], b"a\x00b");
    assert_eq!(cobsr::decode_in_place(&mut [0x02, 0x00]), Err(DecodeError::ZeroByte { index: 1 }));
}

#[test]
fn cobsr_is_never_longer_and_at_most_one_shorter() {
    let mut x: u32 = 12345;
    for len in 0..600usize {
        let data: Vec<u8> = (0..len)
            .map(|_| {
                x = x.wrapping_mul(1103515245).wrapping_add(12345);
                (x >> 16) as u8
            })
            .collect();
        let e = cobs::encode_to_vec(&data);
        let r = cobsr::encode_to_vec(&data);
        assert!(r.len() <= e.len() && r.len() + 1 >= e.len());
        assert!(e.len() >= len + 1 && e.len() <= max_encoded_len(len));
    }
}

#[test]
fn decode_never_expands_on_garbage() {
    let mut x: u32 = 777;
    for len in 0..400usize {
        let data: Vec<u8> = (0..len)
            .map(|_| {
                x = x.wrapping_mul(1103515245).wrapping_add(12345);
                (x >> 16) as u8 % 8
            })
            .collect();
        for r in [cobs::decode_to_vec(&data), cobsr::decode_to_vec(&data)] {
            match r {
                Ok(v) => assert!(v.len() <= data.len()),
                Err(e) => assert_ne!(e, DecodeError::OutputTooSmall),
            }
        }
        // COBS/R fails exactly on a zero byte, at the first one.
        match cobsr::decode_to_vec(&data) {
            Ok(_) => assert!(!data.contains(&0)),
            Err(e) => assert_eq!(
                e,
                DecodeError::ZeroByte { index: data.iter().position(|&b| b == 0).unwrap() }
            ),
        }
    }
}

#[test]
fn frame_writes_encoding_and_delimiter() {
    let mut buf = [0xEEu8; 8];
    let n = frame(&[], &mut buf);
    assert_eq!(&buf[..n], &[0x01, DELIMITER]);
    assert!(buf[n..].iter().all(|&b| b == 0xEE));
}

#[test]
fn stream_decoded_holds_the_completed_frame() {
    let wire = frame_to_vec(&[0x11, 0x00, 0x22]);
    let mut scratch = [0u8; 8];
    let mut dec = StreamDecoder::new(&mut scratch);
    let mut results = Vec::new();
    for &b in &wire {
        results.push(dec.feed(b));
    }
    assert_eq!(results, vec![Ok(None), Ok(None), Ok(None), Ok(None), Ok(Some(3))]);
    assert_eq!(dec.decoded(), &[0x11, 0x00, 0x22]);
    // The next byte starts a new frame.
    assert_eq!(dec.feed(0x02), Ok(None));
    assert_eq!(dec.decoded(), &[] as &[u8]);
    dec.reset();
    assert_eq!(dec.decoded(), &[] as &[u8]);
}

#[test]
fn stream_resumes_after_overflow() {
    let mut wire = frame_to_vec(&[7u8; 20]);
    wire.extend(frame_to_vec(&[0x42, 0x00]));
    let mut scratch = [0u8; 4];
    let mut dec = StreamDecoder::new(&mut scratch);
    let mut oks: Vec<Vec<u8>> = Vec::new();
    let mut errs = Vec::new();
    dec.push(&wire, |f| match f {
        Ok(p) => oks.push(p.to_vec()),
        Err(e) => errs.push(e),
    });
    assert_eq!(errs, vec![DecodeError::OutputTooSmall]);
    assert_eq!(oks, vec![vec![0x42, 0x00]]);
}

#[test]
fn stream_reduced_overflow_at_delimiter() {
    // A reduced final block whose code byte no longer fits.
    let wire = [0x35, b'1', b'2', b'3', b'4', 0x00, 0x02, 0x09, 0x00];
    let mut scratch = [0u8; 4];
    let mut dec = StreamDecoder::new(&mut scratch).reduced(true);
    let mut got = Vec::new();
    dec.push(&wire, |f| got.push(f.map(|p| p.to_vec())));
    assert_eq!(got, vec![Err(DecodeError::OutputTooSmall), Ok(vec![0x09])]);
}

#[test]
fn stream_truncated_reports_code_position() {
    let mut scratch = [0u8; 8];
    let mut dec = StreamDecoder::new(&mut scratch);
    let mut got = Vec::new();
    dec.push(&[0x02, 0x11, 0x04, 0x22, 0x00], |f| got.push(f.map(|p| p.to_vec())));
    assert_eq!(got, vec![Err(DecodeError::Truncated { index: 2 })]);
    // The stream decoder reports the same position as the slice decoder.
    assert_eq!(cobs::decode_to_vec(&[0x02, 0x11, 0x04, 0x22]), Err(DecodeError::Truncated { index: 2 }));

    let mut scratch = [0u8; 16];
    let mut dec = StreamDecoder::new(&mut scratch);
    for b in [0x05, 0x11, 0x22, 0x33] {
        assert_eq!(dec.feed(b), Ok(None));
    }
    assert_eq!(dec.feed(0x00), Err(DecodeError::Truncated { index: 0 }));
    // The next frame counts its positions from zero again.
    for b in [0x01, 0x03, 0x11] {
        assert_eq!(dec.feed(b), Ok(None));
    }
    assert_eq!(dec.feed(0x00), Err(DecodeError::Truncated { index: 1 }));
}

#[test]
fn push_hands_each_frame_on() {
    let mut scratch = [0u8; 8];
    let mut dec = StreamDecoder::new(&mut scratch);
    let mut got = Vec::new();
    dec.push(&[0x00, 0x02, 0x11, 0x02, 0x22, 0x00, 0x05, 0x01, 0x00], |f| got.push(f.map(|p| p.to_vec())));
    assert_eq!(
        got,
        vec![Ok(vec![]), Ok(vec![0x11, 0x00, 0x22]), Err(DecodeError::Truncated { index: 0 })]
    );
    let mut rx = FrameDecoder::new().skip_empty(false);
    let mut got = Vec::new();
    rx.push(&[0x00, 0x02, 0x42, 0x00, 0x00], |r| got.push(r));
    assert_eq!(got, vec![Ok(vec![]), Ok(vec![0x42]), Ok(vec![])]);
}

#[test]
fn frame_decoder_reports_empty_frames_when_asked() {
    let mut rx = FrameDecoder::new().skip_empty(false);
    let mut out = Vec::new();
    rx.push(&[0x00, 0x02, 0x42, 0x00, 0x00], |r| out.push(r.unwrap()));
    assert_eq!(out, vec![vec![], vec![0x42], vec![]]);
}

#[test]
fn frame_decoder_frame_too_long_len() {
    let mut rx = FrameDecoder::new().max_frame_len(4);
    let mut got = Vec::new();
    rx.push(&[0x01, 0x01, 0x01], |r| got.push(r));
    rx.push(&[0x01, 0x01], |r| got.push(r));
    assert_eq!(got, vec![Err(DecodeError::FrameTooLong { len: 5 })]);
    // A chunk that ends on a delimiter is not checked against the bound.
    rx.push(&[0x01, 0x01, 0x01, 0x01, 0x01, 0x01, 0x00], |r| got.push(r));
    assert_eq!(got.len(), 2);
    assert_eq!(got[1], Ok(vec![0, 0, 0, 0, 0]));
    let results = rx.push_frames(&[0x03, 0x11, 0x22, 0x00]);
    assert_eq!(results, vec![Ok(vec![0x11, 0x22])]);
    rx.push(&[0x03, 0x11], |_| {});
    rx.reset();
    let results = rx.push_frames(&[0x02, 0x33, 0x00]);
    assert_eq!(results, vec![Ok(vec![0x33])]);
}

#[test]
fn frame_decoder_chunking_is_invisible() {
    let mut wire = frame_to_vec(&[0x11, 0x00, 0x22]);
    wire.extend_from_slice(&[0x05, 0x01, 0x00]);
    wire.extend(frame_to_vec(&[0xFF; 300]));
    wire.push(0x00);
    let mut whole = FrameDecoder::new().skip_empty(false);
    let expected = whole.push_frames(&wire);
    for cut in 0..=wire.len() {
        let mut rx = FrameDecoder::new().skip_empty(false);
        let mut got = rx.push_frames(&wire[..cut]);
        got.extend(rx.push_frames(&wire[cut..]));
        assert_eq!(got, expected, "cut at {cut}");
    }
}

#[test]
fn frame_decoder_reduced_round_trip() {
    for p in [&b""[..], b"\x00", b"abc", b"\xFF", b"12345"] {
        let mut wire = cobsr::encode_to_vec(p);
        wire.push(DELIMITER);
        let mut rx = FrameDecoder::new().reduced(true).skip_empty(false);
        assert_eq!(rx.push_frames(&wire), vec![Ok(p.to_vec())]);
    }
}

#[test]
fn stream_agrees_with_slice_decoder_on_any_frame() {
    let mut x: u32 = 4242;
    for &(reduced, sentinel) in &[(false, 0u8), (true, 0u8), (false, 0x2A), (true, 0xFF)] {
        for len in 0..300usize {
            // Any bytes but the sentinel, biased toward small codes.
            let frame: Vec<u8> = (0..len)
                .map(|_| {
                    x = x.wrapping_mul(1103515245).wrapping_add(12345);
                    let b = ((x >> 16) as u8) % 6 + 1;
                    b ^ sentinel
                })
                .collect();
            for cap in [len, len / 2] {
                let mut out = vec![0u8; cap];
                let slice = if reduced {
                    cobsr::decode_with_sentinel(&frame, &mut out, sentinel)
                } else {
                    cobs::decode_with_sentinel(&frame, &mut out, sentinel)
                };
                let mut scratch = vec![0u8; cap];
                let mut dec = StreamDecoder::new(&mut scratch).reduced(reduced).sentinel(sentinel);
                let mut got = Vec::new();
                let mut wire = frame.clone();
                wire.push(sentinel);
                dec.push(&wire, |f| got.push(f.map(|p| p.to_vec())));
                match slice {
                    Ok(n) => assert_eq!(got, vec![Ok(out[..n].to_vec())]),
                    Err(DecodeError::OutputTooSmall) => {
                        assert!(!got.is_empty());
                        assert!(got.iter().all(|r| *r == Err(DecodeError::OutputTooSmall)));
                    }
                    Err(e) => assert_eq!(got, vec![Err(e)]),
                }
            }
        }
    }
}

#[test]
fn final_run_of_254_gets_no_trailing_block() {
    let run: Vec<u8> = (1..=254u8).collect();
    let encoded = cobs::encode_to_vec(&run);
    assert_eq!(encoded.len(), 255);
    assert_eq!(encoded[0], 0xFF);
    assert_eq!(&encoded[1..], &run[..]);
    // A longer input with an empty trailing block decodes to the same run.
    let mut longer = encoded.clone();
    longer.push(0x01);
    assert_eq!(cobs::decode_to_vec(&longer).unwrap(), run);
    assert!(longer.len() > encoded.len());
}

#[test]
fn decode_error_messages() {
    assert_eq!(
        DecodeError::ZeroByte { index: 3 }.message(),
        "zero byte in encoded input at index 3"
    );
    assert_eq!(
        DecodeError::Truncated { index: 1024 }.message(),
        "length code at index 1024 points past end of input"
    );
    assert_eq!(DecodeError::OutputTooSmall.message(), "destination buffer too small");
    assert_eq!(
        DecodeError::FrameTooLong { len: 0 }.message(),
        "unterminated frame exceeds maximum length (0 bytes)"
    );
    assert_eq!(
        DecodeError::ZeroByte { index: usize::MAX }.message(),
        format!("zero byte in encoded input at index {}", usize::MAX)
    );
}
