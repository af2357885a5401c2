use bytes::{BufMut, Bytes, BytesMut};
use h2proxy_core::conn::setting_id;
use h2proxy_core::conn::ErrorCode;
use h2proxy_core::frame::{
    Decoded, Flags, Frame, FrameCodec, FrameError, FrameHeader, FrameType, ACK, END_HEADERS,
    END_STREAM, FRAME_HEADER_LEN, MAX_ALLOWED_FRAME_SIZE, PADDED, PRIORITY, PUSH_PROMISE_TYPE,
};
use h2proxy_core::stream::StreamId;

/// Encode `frame`, decode it back, and assert both the value and full
/// consumption of the buffer — the invariant every frame type must hold.
fn assert_round_trips(frame: Frame) {
    let mut codec = FrameCodec::new(MAX_ALLOWED_FRAME_SIZE);
    let mut buf = BytesMut::new();
    codec.encode(&frame, &mut buf).expect("encode");
    let decoded = codec.decode(&mut buf).expect("decode").expect("a frame");
    assert_eq!(decoded, frame);
    assert!(buf.is_empty(), "the whole frame should be consumed");
}

/// Build the raw octets of a frame with an arbitrary (possibly illegal)
/// header, for the malformed-input tests.
fn raw(kind: u8, flags: u8, stream_id: u32, payload: &[u8]) -> BytesMut {
    let mut buf = BytesMut::new();
    let len = (payload.len() as u32).to_be_bytes();
    buf.put_u8(len[1]);
    buf.put_u8(len[2]);
    buf.put_u8(len[3]);
    buf.put_u8(kind);
    buf.put_u8(flags);
    buf.put_u32(stream_id);
    buf.put_slice(payload);
    buf
}

fn decode_raw(buf: &mut BytesMut) -> Result<Option<Frame>, FrameError> {
    FrameCodec::new(MAX_ALLOWED_FRAME_SIZE).decode(buf)
}

fn stream_1() -> StreamId {
    StreamId::new(1)
}

// ---- round trips, one per frame type ---------------------------------

#[test]
fn data_round_trips() {
    assert_round_trips(Frame::Data {
        stream_id: stream_1(),
        data: Bytes::from_static(b"hello world"),
        end_stream: true,
    });
    // An empty DATA frame is legal and is how a body is terminated.
    assert_round_trips(Frame::Data {
        stream_id: stream_1(),
        data: Bytes::new(),
        end_stream: true,
    });
}

#[test]
fn headers_round_trips() {
    for (end_stream, end_headers) in
        [(false, false), (false, true), (true, false), (true, true)]
    {
        assert_round_trips(Frame::Headers {
            stream_id: stream_1(),
            block: Bytes::from_static(b"\x82\x86\x84"),
            end_stream,
            end_headers,
        });
    }
}

#[test]
fn settings_round_trips_through_our_codec() {
    let frame = Frame::Settings {
        ack: false,
        params: vec![
            (setting_id::MAX_CONCURRENT_STREAMS, 128),
            (setting_id::INITIAL_WINDOW_SIZE, 1 << 20),
            (setting_id::ENABLE_PUSH, 0),
        ],
    };

    let mut codec = FrameCodec::new(16_384);
    let mut buf = BytesMut::new();
    codec.encode(&frame, &mut buf).expect("encode");

    // Header (9) + three 6-octet entries.
    assert_eq!(buf.len(), FRAME_HEADER_LEN + 3 * 6);

    let decoded = codec.decode(&mut buf).expect("decode").expect("a frame");
    assert_eq!(decoded, frame);
    assert!(buf.is_empty(), "the whole frame should be consumed");
}

#[test]
fn settings_ack_has_empty_payload() {
    let frame = Frame::Settings {
        ack: true,
        params: Vec::new(),
    };
    let mut codec = FrameCodec::new(16_384);
    let mut buf = BytesMut::new();
    codec.encode(&frame, &mut buf).expect("encode");
    assert_eq!(buf.len(), FRAME_HEADER_LEN);
    assert_eq!(codec.decode(&mut buf).expect("decode"), Some(frame));
}

#[test]
fn rst_stream_round_trips() {
    assert_round_trips(Frame::RstStream {
        stream_id: stream_1(),
        error_code: ErrorCode::Cancel,
    });
}

#[test]
fn ping_round_trips() {
    for ack in [false, true] {
        assert_round_trips(Frame::Ping {
            data: *b"\x01\x02\x03\x04\x05\x06\x07\x08",
            ack,
        });
    }
}

#[test]
fn go_away_round_trips() {
    assert_round_trips(Frame::GoAway {
        last_stream_id: StreamId::new(7),
        error_code: ErrorCode::ProtocolError,
        debug_data: Bytes::from_static(b"bad frame on stream 9"),
    });
    // Debug data is optional: an 8-octet payload is the minimum.
    assert_round_trips(Frame::GoAway {
        last_stream_id: StreamId::connection(),
        error_code: ErrorCode::NoError,
        debug_data: Bytes::new(),
    });
}

#[test]
fn window_update_round_trips() {
    assert_round_trips(Frame::WindowUpdate {
        stream_id: stream_1(),
        increment: 65_535,
    });
    // Stream 0 carries the connection-level window.
    assert_round_trips(Frame::WindowUpdate {
        stream_id: StreamId::connection(),
        increment: 1 << 20,
    });
}

#[test]
fn continuation_round_trips() {
    assert_round_trips(Frame::Continuation {
        stream_id: stream_1(),
        block: Bytes::from_static(b"\x40\x0a"),
        end_headers: true,
    });
}

// ---- streaming / reassembly -------------------------------------------

#[test]
fn decode_waits_for_a_complete_frame() {
    let frame = Frame::Settings {
        ack: false,
        params: vec![(setting_id::MAX_FRAME_SIZE, 16_384)],
    };
    let mut codec = FrameCodec::new(16_384);
    let mut full = BytesMut::new();
    codec.encode(&frame, &mut full).expect("encode");

    // Feed one byte short of the whole frame: nothing decodes, nothing is
    // consumed.
    let mut partial = full.clone();
    let last = partial.split_off(full.len() - 1);
    assert_eq!(codec.decode(&mut partial).expect("decode"), None);
    assert_eq!(partial.len(), full.len() - 1, "partial input is untouched");

    // Supplying the final byte completes the frame.
    partial.unsplit(last);
    assert_eq!(codec.decode(&mut partial).expect("decode"), Some(frame));
}

#[test]
fn decode_drains_frames_back_to_back() {
    let mut codec = FrameCodec::new(16_384);
    let mut buf = BytesMut::new();
    let ping = Frame::Ping {
        data: [9; 8],
        ack: false,
    };
    let rst = Frame::RstStream {
        stream_id: stream_1(),
        error_code: ErrorCode::RefusedStream,
    };
    codec.encode(&ping, &mut buf).expect("encode");
    codec.encode(&rst, &mut buf).expect("encode");

    assert_eq!(codec.decode(&mut buf).expect("decode"), Some(ping));
    assert_eq!(codec.decode(&mut buf).expect("decode"), Some(rst));
    assert_eq!(codec.decode(&mut buf).expect("decode"), None);
}

#[test]
fn oversized_frames_are_rejected_before_buffering_the_payload() {
    // A header claiming 100 octets against a 64-octet limit must fail
    // immediately, without waiting for the payload to arrive.
    let mut buf = raw(FrameType::Data.as_u8(), 0, 1, &[]);
    buf[2] = 100;
    let err = FrameCodec::new(64).decode(&mut buf).expect_err("oversized");
    assert_eq!(err, FrameError::Oversized { len: 100, max: 64 });
    assert_eq!(err.code(), ErrorCode::FrameSizeError);
}

// ---- padding and priority ---------------------------------------------

#[test]
fn padded_data_is_stripped() {
    // PADDED: pad length 3, payload "hi", then three zero octets.
    let mut buf = raw(
        FrameType::Data.as_u8(),
        PADDED,
        1,
        b"\x03hi\x00\x00\x00",
    );
    let frame = decode_raw(&mut buf).expect("decode").expect("a frame");
    assert_eq!(
        frame,
        Frame::Data {
            stream_id: stream_1(),
            data: Bytes::from_static(b"hi"),
            end_stream: false,
        }
    );
}

#[test]
fn padding_at_least_as_long_as_the_payload_is_a_protocol_error() {
    // Pad length 4 with only 4 payload octets total: the padding would eat
    // its own length octet (§6.1).
    let mut buf = raw(FrameType::Data.as_u8(), PADDED, 1, b"\x04abc");
    let err = decode_raw(&mut buf).expect_err("padding overflow");
    assert_eq!(
        err,
        FrameError::PaddingOverflow {
            kind: FrameType::Data
        }
    );
    assert_eq!(err.code(), ErrorCode::ProtocolError);
}

#[test]
fn padded_flag_with_an_empty_payload_is_a_size_error() {
    let mut buf = raw(FrameType::Data.as_u8(), PADDED, 1, b"");
    let err = decode_raw(&mut buf).expect_err("missing pad length octet");
    assert_eq!(err.code(), ErrorCode::FrameSizeError);
}

#[test]
fn headers_priority_fields_are_skipped() {
    // PRIORITY: 4 octets of stream dependency + 1 weight, then the block.
    let mut buf = raw(
        FrameType::Headers.as_u8(),
        PRIORITY | END_HEADERS,
        1,
        b"\x00\x00\x00\x03\x10\x82\x86",
    );
    let frame = decode_raw(&mut buf).expect("decode").expect("a frame");
    assert_eq!(
        frame,
        Frame::Headers {
            stream_id: stream_1(),
            block: Bytes::from_static(b"\x82\x86"),
            end_stream: false,
            end_headers: true,
        }
    );
}

#[test]
fn headers_too_short_for_its_priority_block_is_a_size_error() {
    let mut buf = raw(
        FrameType::Headers.as_u8(),
        PRIORITY,
        1,
        b"\x00\x00",
    );
    let err = decode_raw(&mut buf).expect_err("truncated priority block");
    assert_eq!(err.code(), ErrorCode::FrameSizeError);
}

#[test]
fn padded_and_prioritized_headers_strip_both() {
    // Pad length 2, priority block, "\x82", then two padding octets.
    let mut buf = raw(
        FrameType::Headers.as_u8(),
        PADDED | PRIORITY,
        1,
        b"\x02\x00\x00\x00\x03\x10\x82\x00\x00",
    );
    let frame = decode_raw(&mut buf).expect("decode").expect("a frame");
    assert_eq!(
        frame,
        Frame::Headers {
            stream_id: stream_1(),
            block: Bytes::from_static(b"\x82"),
            end_stream: false,
            end_headers: false,
        }
    );
}

// ---- length and stream-id validation -----------------------------------

#[test]
fn fixed_length_frames_reject_wrong_lengths() {
    // RST_STREAM, PING and WINDOW_UPDATE all have exact payload lengths.
    for (kind, stream_id, payload) in [
        (FrameType::RstStream, 1u32, &b"\x00\x00"[..]),
        (FrameType::Ping, 0, &b"\x00\x00\x00"[..]),
        (FrameType::WindowUpdate, 1, &b"\x00\x00\x00\x00\x00"[..]),
        // GOAWAY needs at least 8 octets.
        (FrameType::GoAway, 0, &b"\x00\x00\x00"[..]),
    ] {
        let mut buf = raw(kind.as_u8(), 0, stream_id, payload);
        let err = decode_raw(&mut buf).unwrap_err();
        assert_eq!(
            err,
            FrameError::BadLength {
                kind,
                len: payload.len() as u32
            },
            "{kind:?} accepted a {}-octet payload",
            payload.len(),
        );
        assert_eq!(err.code(), ErrorCode::FrameSizeError);
    }
}

#[test]
fn settings_ack_with_a_payload_is_rejected() {
    let mut buf = raw(
        FrameType::Settings.as_u8(),
        ACK,
        0,
        b"\x00\x03\x00\x00\x00\x64",
    );
    let err = decode_raw(&mut buf).expect_err("ACK must be empty");
    assert_eq!(err.code(), ErrorCode::FrameSizeError);
}

#[test]
fn settings_payload_must_be_a_multiple_of_six() {
    let mut buf = raw(FrameType::Settings.as_u8(), 0, 0, b"\x00\x03\x00\x00\x00");
    let err = decode_raw(&mut buf).expect_err("truncated settings entry");
    assert_eq!(err.code(), ErrorCode::FrameSizeError);
}

#[test]
fn stream_addressed_frames_reject_stream_zero() {
    for kind in [
        FrameType::Data,
        FrameType::Headers,
        FrameType::RstStream,
        FrameType::Continuation,
    ] {
        // A 4-octet payload keeps RST_STREAM's length legal so the stream-id
        // check is what fails.
        let mut buf = raw(kind.as_u8(), 0, 0, b"\x00\x00\x00\x00");
        let err = decode_raw(&mut buf).unwrap_err();
        assert_eq!(
            err,
            FrameError::BadStreamId(kind),
            "{kind:?} allowed stream 0"
        );
        assert_eq!(err.code(), ErrorCode::ProtocolError);
    }
}

#[test]
fn connection_frames_reject_nonzero_streams() {
    for (kind, payload) in [
        (FrameType::Settings, &b""[..]),
        (FrameType::Ping, &b"\x00\x00\x00\x00\x00\x00\x00\x00"[..]),
        (FrameType::GoAway, &b"\x00\x00\x00\x00\x00\x00\x00\x00"[..]),
    ] {
        let mut buf = raw(kind.as_u8(), 0, 1, payload);
        let err = decode_raw(&mut buf).unwrap_err();
        assert_eq!(
            err,
            FrameError::BadStreamId(kind),
            "{kind:?} allowed stream 1"
        );
        assert_eq!(err.code(), ErrorCode::ProtocolError);
    }
}

#[test]
fn window_update_is_legal_on_any_stream() {
    // Unlike the other stream-addressed frames, stream 0 is meaningful here:
    // it is the connection-level window.
    let mut buf = raw(FrameType::WindowUpdate.as_u8(), 0, 0, b"\x00\x00\x01\x00");
    let frame = decode_raw(&mut buf).expect("decode").expect("a frame");
    assert_eq!(
        frame,
        Frame::WindowUpdate {
            stream_id: StreamId::connection(),
            increment: 256,
        }
    );
}

#[test]
fn window_update_masks_the_reserved_bit() {
    // The high bit is reserved; a peer that sets it must not inflate the
    // increment (§6.9).
    let mut buf = raw(FrameType::WindowUpdate.as_u8(), 0, 1, b"\x80\x00\x00\x01");
    let frame = decode_raw(&mut buf).expect("decode").expect("a frame");
    assert_eq!(
        frame,
        Frame::WindowUpdate {
            stream_id: stream_1(),
            increment: 1,
        }
    );
}

#[test]
fn zero_window_update_decodes_for_the_connection_layer_to_judge() {
    // §6.9 scopes this violation to a stream or the connection depending on
    // state the framing layer does not have, so it is not an error here.
    let mut buf = raw(FrameType::WindowUpdate.as_u8(), 0, 1, b"\x00\x00\x00\x00");
    let frame = decode_raw(&mut buf).expect("decode").expect("a frame");
    assert_eq!(
        frame,
        Frame::WindowUpdate {
            stream_id: stream_1(),
            increment: 0,
        }
    );
}

// ---- unknown types and PUSH_PROMISE ------------------------------------

#[test]
fn unknown_frame_types_are_discarded() {
    let mut buf = raw(0x2a, 0xff, 3, b"whatever this is");
    // The unknown frame is consumed; with nothing behind it the codec
    // reports "need more bytes" rather than surfacing it.
    assert_eq!(decode_raw(&mut buf).expect("decode"), None);
    assert!(buf.is_empty(), "the unknown frame should be consumed");
}

#[test]
fn a_frame_after_an_unknown_type_still_decodes() {
    let mut buf = raw(0x2a, 0, 3, b"ignore me");
    let ping = Frame::Ping {
        data: [7; 8],
        ack: true,
    };
    FrameCodec::new(16_384)
        .encode(&ping, &mut buf)
        .expect("encode");
    assert_eq!(decode_raw(&mut buf).expect("decode"), Some(ping));
    assert!(buf.is_empty());
}

#[test]
fn deprecated_priority_frames_are_discarded() {
    // PRIORITY (0x2) is deprecated by RFC 9113; we ignore it like any other
    // unrecognized type rather than modeling a dependency tree.
    let mut buf = raw(0x2, 0, 1, b"\x00\x00\x00\x00\x10");
    assert_eq!(decode_raw(&mut buf).expect("decode"), None);
    assert!(buf.is_empty());
}

#[test]
fn push_promise_is_rejected() {
    let mut buf = raw(PUSH_PROMISE_TYPE, 0, 1, b"\x00\x00\x00\x02");
    let err = decode_raw(&mut buf).expect_err("push is disabled");
    assert_eq!(err, FrameError::UnexpectedPushPromise);
    assert_eq!(err.code(), ErrorCode::ProtocolError);
}

// ---- error-code normalization -------------------------------------------

#[test]
fn unknown_error_codes_normalize_to_internal_error() {
    // §7 permits treating an unrecognized code as INTERNAL_ERROR, so this
    // one decode is deliberately not byte-preserving.
    let mut buf = raw(FrameType::RstStream.as_u8(), 0, 1, b"\xff\xff\xff\xff");
    let frame = decode_raw(&mut buf).expect("decode").expect("a frame");
    assert_eq!(
        frame,
        Frame::RstStream {
            stream_id: stream_1(),
            error_code: ErrorCode::InternalError,
        }
    );
}

// ---- encode-side guards ---------------------------------------------------

#[test]
fn encoding_refuses_a_payload_the_length_field_cannot_hold() {
    let too_big = Frame::Data {
        stream_id: stream_1(),
        data: Bytes::from(vec![0u8; MAX_ALLOWED_FRAME_SIZE as usize + 1]),
        end_stream: false,
    };
    let err = FrameCodec::new(MAX_ALLOWED_FRAME_SIZE)
        .encode(&too_big, &mut BytesMut::new())
        .expect_err("payload exceeds the 24-bit length field");
    assert_eq!(err.code(), ErrorCode::FrameSizeError);
}

#[test]
fn kind_and_stream_id_accessors_agree_with_the_wire() {
    let frame = Frame::Headers {
        stream_id: stream_1(),
        block: Bytes::new(),
        end_stream: false,
        end_headers: true,
    };
    assert_eq!(frame.kind(), FrameType::Headers);
    assert_eq!(frame.stream_id(), stream_1());
    assert_eq!(
        Frame::Ping {
            data: [0; 8],
            ack: false
        }
        .stream_id(),
        StreamId::connection(),
    );
}

// ---- the rest of the vocabulary --------------------------------------------

#[test]
fn an_ignored_frame_is_reported_with_its_stream() {
    let mut buf = raw(0x2, 0, 5, b"\x00\x00\x00\x00\x10");
    let got = FrameCodec::new(16_384).decode_any(&mut buf).expect("decode");
    assert_eq!(
        got,
        Some(Decoded::Ignored {
            kind: FrameType::from_u8(0x2),
            stream_id: StreamId::new(5),
        })
    );
    assert!(buf.is_empty());
}

#[test]
fn a_frame_header_is_laid_out_as_the_rfc_draws_it() {
    let header = FrameHeader {
        length: 0x010203,
        kind: FrameType::Headers,
        flags: Flags(END_STREAM | END_HEADERS),
        stream_id: StreamId::new(0x7fff_fffe),
    };
    let mut out = BytesMut::new();
    header.write(&mut out);
    assert_eq!(&out[..], b"\x01\x02\x03\x01\x05\x7f\xff\xff\xfe");
    assert_eq!(FrameHeader::parse(&out), header);
}

#[test]
fn the_reserved_bit_of_a_stream_id_is_dropped() {
    let mut buf = raw(FrameType::RstStream.as_u8(), 0, 0x8000_0001, b"\x00\x00\x00\x08");
    assert_eq!(
        decode_raw(&mut buf).expect("decode"),
        Some(Frame::RstStream {
            stream_id: stream_1(),
            error_code: ErrorCode::Cancel,
        })
    );
}

#[test]
fn flags_are_set_and_read_by_bit() {
    let flags = Flags::empty()
        .set_if(true, Flags(END_STREAM))
        .set_if(false, Flags(PADDED))
        .set_if(true, Flags(PRIORITY));
    assert_eq!(flags, Flags(0x21));
    assert!(flags.contains(Flags(END_STREAM)));
    assert!(!flags.contains(Flags(PADDED)));
    assert!(!flags.contains(Flags(ACK | PADDED)));
}

#[test]
fn frame_types_keep_their_wire_values() {
    for v in 0..=255u8 {
        assert_eq!(FrameType::from_u8(v).as_u8(), v);
    }
    assert_eq!(FrameType::GoAway.as_u8(), 0x7);
    assert_eq!(FrameType::Continuation.as_u8(), 0x9);
}

#[test]
fn every_frame_error_says_what_was_wrong() {
    for (error, text) in [
        (
            FrameError::Oversized { len: 100, max: 64 },
            "frame length 100 exceeds SETTINGS_MAX_FRAME_SIZE 64",
        ),
        (
            FrameError::BadLength { kind: FrameType::Ping, len: 3 },
            "Ping frame has an invalid length (3)",
        ),
        (
            FrameError::BadStreamId(FrameType::Data),
            "Data frame arrived on an invalid stream",
        ),
        (
            FrameError::PaddingOverflow { kind: FrameType::Data },
            "Data frame padding is at least as long as its payload",
        ),
        (
            FrameError::UnexpectedPushPromise,
            "received PUSH_PROMISE, but this endpoint advertises ENABLE_PUSH = 0",
        ),
    ] {
        assert_eq!(error.message(), text);
    }
}

#[test]
fn plain_frames_re_encode_to_the_same_octets() {
    for (kind, flags, id, payload) in [
        (0x0, 0x1, 3, &b"body"[..]),
        (0x1, 0x5, 1, &b"\x82"[..]),
        (0x3, 0x0, 1, &b"\x00\x00\x00\x08"[..]),
        (0x4, 0x0, 0, &b"\x00\x03\x00\x00\x00\x64\xbe\xef\x00\x00\x00\x01"[..]),
        (0x4, 0x1, 0, &b""[..]),
        (0x6, 0x1, 0, &b"12345678"[..]),
        (0x7, 0x0, 0, &b"\x00\x00\x00\x05\x00\x00\x00\x01why"[..]),
        (0x8, 0x0, 0, &b"\x7f\xff\xff\xff"[..]),
        (0x9, 0x4, 1, &b"\x84"[..]),
    ] {
        let wire = raw(kind, flags, id, payload);
        let frame = decode_raw(&mut wire.clone()).expect("decode").expect("a frame");
        let mut out = BytesMut::new();
        FrameCodec::new(16_384).encode(&frame, &mut out).expect("encode");
        assert_eq!(out, wire, "{frame:?}");
    }
}

#[test]
fn octets_may_arrive_one_at_a_time() {
    let mut codec = FrameCodec::new(16_384);
    let frames = [
        Frame::Ping { data: [1; 8], ack: false },
        Frame::Data {
            stream_id: stream_1(),
            data: Bytes::from_static(b"hello"),
            end_stream: true,
        },
        Frame::WindowUpdate { stream_id: stream_1(), increment: 7 },
    ];
    let mut wire = BytesMut::new();
    for frame in &frames {
        codec.encode(frame, &mut wire).expect("encode");
    }
    let mut buf = BytesMut::new();
    let mut got = Vec::new();
    for octet in &wire[..] {
        buf.put_u8(*octet);
        while let Some(frame) = codec.decode(&mut buf).expect("decode") {
            got.push(frame);
        }
    }
    assert_eq!(&got[..], &frames[..]);
}
