use bytes::{Bytes, BytesMut};
use h2proxy_core::conn::engine::{
    built_in_response, Body, Connection, ConnectionSummary, Next, Preface, MAX_HEADER_BLOCK_BYTES,
    PREFACE,
};
use h2proxy_core::conn::redact::redacted;
use h2proxy_core::conn::setting_id;
use h2proxy_core::conn::{
    ConnectionError, ErrorCode, Settings, Tuning, MAX_CONCURRENT_STREAMS, MAX_HEADER_LIST_SIZE,
};
use h2proxy_core::flow::{
    CONNECTION_WINDOW, CONNECTION_WINDOW_BOOTSTRAP, MAX_WINDOW_SIZE, STREAM_INITIAL_WINDOW,
};
use h2proxy_core::frame::{Frame, FrameCodec, DEFAULT_MAX_FRAME_SIZE, MAX_ALLOWED_FRAME_SIZE};
use h2proxy_core::hpack::{Header, HpackDecoder, HpackEncoder};
use h2proxy_core::service::{Echo, Response};
use h2proxy_core::stream::StreamId;

fn field(name: &str, value: &str) -> Header {
    Header::new(
        Bytes::copy_from_slice(name.as_bytes()),
        Bytes::copy_from_slice(value.as_bytes()),
    )
}

fn secret(name: &str, value: &str) -> Header {
    Header::sensitive(
        Bytes::copy_from_slice(name.as_bytes()),
        Bytes::copy_from_slice(value.as_bytes()),
    )
}

// ---- SETTINGS validation (§6.5.2) --------------------------------------

#[test]
fn apply_folds_known_parameters() {
    let mut settings = Settings::default();
    settings
        .apply(&[
            (setting_id::HEADER_TABLE_SIZE, 8192),
            (setting_id::ENABLE_PUSH, 0),
            (setting_id::MAX_CONCURRENT_STREAMS, 250),
            (setting_id::INITIAL_WINDOW_SIZE, 1 << 20),
            (setting_id::MAX_FRAME_SIZE, 32_768),
            (setting_id::MAX_HEADER_LIST_SIZE, 16_384),
        ])
        .expect("all values are legal");

    assert_eq!(settings.header_table_size, 8192);
    assert!(!settings.enable_push);
    assert_eq!(settings.max_concurrent_streams, Some(250));
    assert_eq!(settings.initial_window_size, 1 << 20);
    assert_eq!(settings.max_frame_size, 32_768);
    assert_eq!(settings.max_header_list_size, Some(16_384));
}

#[test]
fn apply_ignores_unknown_identifiers() {
    // §6.5.3 — ignoring unknown settings is what lets the protocol grow.
    let mut settings = Settings::default();
    settings
        .apply(&[(0xbeef, 1), (setting_id::MAX_CONCURRENT_STREAMS, 7)])
        .expect("an unknown identifier is not an error");
    assert_eq!(settings.max_concurrent_streams, Some(7));
}

#[test]
fn apply_rejects_a_non_boolean_enable_push() {
    let err = Settings::default()
        .apply(&[(setting_id::ENABLE_PUSH, 2)])
        .expect_err("ENABLE_PUSH must be 0 or 1");
    assert_eq!(err.code, ErrorCode::ProtocolError);
}

#[test]
fn apply_rejects_an_oversized_initial_window() {
    let err = Settings::default()
        .apply(&[(setting_id::INITIAL_WINDOW_SIZE, MAX_WINDOW_SIZE as u32 + 1)])
        .expect_err("window above 2^31-1");
    // §6.5.2 scopes this one to flow control, not protocol.
    assert_eq!(err.code, ErrorCode::FlowControlError);
}

#[test]
fn max_frame_size_bounds_are_enforced() {
    for value in [DEFAULT_MAX_FRAME_SIZE - 1, MAX_ALLOWED_FRAME_SIZE + 1] {
        let err = Settings::default()
            .apply(&[(setting_id::MAX_FRAME_SIZE, value)])
            .expect_err("out-of-range MAX_FRAME_SIZE");
        assert_eq!(err.code, ErrorCode::ProtocolError);
    }
    // Both ends of the range are legal.
    for value in [DEFAULT_MAX_FRAME_SIZE, MAX_ALLOWED_FRAME_SIZE] {
        Settings::default()
            .apply(&[(setting_id::MAX_FRAME_SIZE, value)])
            .expect("boundary values are legal");
    }
}

#[test]
fn the_advertised_settings_turn_push_off() {
    let Frame::Settings { ack, params } = Settings::server().to_frame() else {
        panic!("expected a SETTINGS frame");
    };
    assert!(!ack);
    assert!(
        params.contains(&(setting_id::ENABLE_PUSH, 0)),
        "the server must advertise ENABLE_PUSH = 0, got {params:?}",
    );
}

// ---- a test peer speaking our own codec --------------------------------

/// The client side of a connection, driven with our own codec: the octets each
/// side writes are handed straight to the other.
struct TestPeer {
    conn: Connection,
    greeted: bool,
    closed: bool,
    codec: FrameCodec,
    buf: BytesMut,
}

impl TestPeer {
    fn connect() -> TestPeer {
        TestPeer::connect_to(Connection::new())
    }

    fn connect_to(mut conn: Connection) -> TestPeer {
        conn.start().expect("the opening frames encode");
        let mut peer = TestPeer {
            conn,
            greeted: false,
            closed: false,
            codec: FrameCodec::new(MAX_ALLOWED_FRAME_SIZE),
            buf: BytesMut::new(),
        };
        peer.flush();
        peer
    }

    fn flush(&mut self) {
        self.buf.extend_from_slice(&self.conn.take_output());
    }

    /// What the server does with octets that arrived.
    fn send_raw(&mut self, bytes: &[u8]) {
        if self.closed {
            return;
        }
        self.conn.feed(bytes);
        if !self.greeted {
            match self.conn.accept_preface() {
                Preface::Incomplete => return,
                Preface::Mismatch => {
                    self.closed = true;
                    return;
                }
                Preface::Accepted => self.greeted = true,
            }
        }
        match self.conn.serve(Echo::default().default_body) {
            Ok(Next::Continue) => {}
            Ok(Next::Close) => self.closed = true,
            Err(e) => {
                self.conn.fail(e);
                self.closed = true;
            }
        }
        self.flush();
    }

    fn send(&mut self, frame: &Frame) {
        let mut out = BytesMut::new();
        self.codec.encode(frame, &mut out).expect("encode");
        self.send_raw(&out);
    }

    /// The client half of the preface: the magic octets plus our SETTINGS.
    fn send_preface(&mut self) {
        self.send_raw(PREFACE.as_bytes());
        self.send(&Frame::Settings {
            ack: false,
            params: vec![(setting_id::INITIAL_WINDOW_SIZE, 1 << 20)],
        });
    }

    /// Send our preface and consume everything the server opens with, so a
    /// test can go straight to the frames it actually cares about: SETTINGS,
    /// the stream-0 WINDOW_UPDATE that lifts the connection window off its
    /// 64 KiB default, then the ACK of ours.
    fn complete_handshake(&mut self) {
        self.send_preface();
        assert!(matches!(self.recv(), Frame::Settings { ack: false, .. }));
        assert!(matches!(
            self.recv(),
            Frame::WindowUpdate { stream_id, .. } if stream_id.is_connection()
        ));
        assert!(matches!(self.recv(), Frame::Settings { ack: true, .. }));
    }

    /// Read one frame, failing the test if there is none.
    fn recv(&mut self) -> Frame {
        self.codec
            .decode(&mut self.buf)
            .expect("decode")
            .expect("the server sent nothing more")
    }

    /// Every frame that has arrived.
    fn drain(&mut self) -> Vec<Frame> {
        let mut frames = Vec::new();
        while let Some(frame) = self.codec.decode(&mut self.buf).expect("decode") {
            frames.push(frame);
        }
        frames
    }

    fn summary(&self) -> ConnectionSummary {
        self.conn.summary()
    }
}

// ---- the handshake ------------------------------------------------------

#[test]
fn server_sends_settings_before_reading_anything() {
    // §3.4: the server's preface is its SETTINGS frame, and it must not wait
    // for the client's before sending it.
    let mut peer = TestPeer::connect();
    assert!(
        matches!(peer.recv(), Frame::Settings { ack: false, .. }),
        "the server must open with a non-ACK SETTINGS frame",
    );
}

#[test]
fn client_settings_are_acknowledged() {
    let mut peer = TestPeer::connect();
    peer.send_preface();

    assert!(matches!(
        peer.recv(),
        Frame::Settings { ack: false, .. }
    ));
    assert!(matches!(peer.recv(), Frame::WindowUpdate { .. }));
    assert!(
        matches!(peer.recv(), Frame::Settings { ack: true, .. }),
        "the server must acknowledge our SETTINGS (§6.5.3)",
    );
}

#[test]
fn a_completed_handshake_is_reported() {
    let mut peer = TestPeer::connect();
    peer.complete_handshake();

    let summary = peer.summary();
    assert!(summary.handshake_completed);
    assert_eq!(summary.frames_received, 1, "one SETTINGS frame");
}

#[test]
fn a_bad_preface_closes_without_a_goaway() {
    // An HTTP/1.1 request cannot parse GOAWAY, so §3.4 lets us just close.
    let mut peer = TestPeer::connect();
    peer.send_raw(b"GET / HTTP/1.1\r\nHost: example.com\r\n\r\n\r\n")
        ;

    let frames = peer.drain();
    assert!(
        frames.iter().all(|f| matches!(
            f,
            Frame::Settings { ack: false, .. } | Frame::WindowUpdate { .. }
        )),
        "expected only our own preface, got {frames:?}",
    );
    let summary = peer.summary();
    assert!(!summary.handshake_completed);
}

// ---- control frames -----------------------------------------------------

#[test]
fn ping_is_answered_with_an_ack_carrying_the_same_payload() {
    let mut peer = TestPeer::connect();
    peer.complete_handshake();

    let payload = *b"keepaliv";
    peer.send(&Frame::Ping {
        data: payload,
        ack: false,
    });

    assert_eq!(
        peer.recv(),
        Frame::Ping {
            data: payload,
            ack: true
        },
        "PING must be echoed back with ACK set (§6.7)",
    );
}

#[test]
fn a_peer_goaway_closes_the_connection_quietly() {
    let mut peer = TestPeer::connect();
    peer.complete_handshake();

    peer.send(&Frame::GoAway {
        last_stream_id: StreamId::connection(),
        error_code: ErrorCode::NoError,
        debug_data: Bytes::new(),
    });

    let trailing = peer.drain();
    assert!(
        trailing.is_empty(),
        "responding to a peer's GOAWAY with more frames is wrong, got {trailing:?}",
    );
    assert!(peer.closed, "the connection did not close after GOAWAY");
}

// ---- protocol errors become GOAWAY ---------------------------

/// Run the handshake, then feed `frames` and return the GOAWAY the server
/// must answer with.
fn goaway_after(frames: &[Frame]) -> Frame {
    let mut peer = TestPeer::connect();
    peer.complete_handshake();
    for frame in frames {
        peer.send(frame);
    }
    // Skip past anything stream-scoped the setup provoked on the way — the
    // question here is only which *connection* error comes out.
    loop {
        match peer.recv() {
            Frame::RstStream { .. } | Frame::Headers { .. } | Frame::Data { .. } => continue,
            frame => return frame,
        }
    }
}

#[test]
fn an_illegal_setting_produces_a_goaway() {
    let goaway = goaway_after(&[Frame::Settings {
        ack: false,
        params: vec![(setting_id::ENABLE_PUSH, 3)],
    }]);
    assert!(
        matches!(
            goaway,
            Frame::GoAway {
                error_code: ErrorCode::ProtocolError,
                ..
            }
        ),
        "expected GOAWAY(PROTOCOL_ERROR), got {goaway:?}",
    );
}

#[test]
fn a_zero_connection_window_update_produces_a_goaway() {
    let goaway = goaway_after(&[Frame::WindowUpdate {
        stream_id: StreamId::connection(),
        increment: 0,
    }]);
    assert!(
        matches!(
            goaway,
            Frame::GoAway {
                error_code: ErrorCode::ProtocolError,
                ..
            }
        ),
        "a zero increment on stream 0 is a connection error (§6.9), got {goaway:?}",
    );
}

#[test]
fn interrupting_a_header_block_produces_a_goaway() {
    // §4.3: nothing may come between HEADERS and its CONTINUATIONs — an
    // interleaved frame would corrupt the connection's shared HPACK state.
    let goaway = goaway_after(&[
        Frame::Headers {
            stream_id: StreamId::new(1),
            block: Bytes::from_static(b"\x82"),
            end_stream: false,
            end_headers: false,
        },
        Frame::Ping {
            data: [0; 8],
            ack: false,
        },
    ]);
    assert!(
        matches!(
            goaway,
            Frame::GoAway {
                error_code: ErrorCode::ProtocolError,
                ..
            }
        ),
        "expected GOAWAY(PROTOCOL_ERROR), got {goaway:?}",
    );
}

#[test]
fn a_continuation_may_follow_its_headers() {
    // The other side of the rule above: the legal sequence must survive.
    let mut peer = TestPeer::connect();
    peer.complete_handshake();

    // `:method: GET` + `:scheme: http` here, `:path: /` in the continuation:
    // one request, split so it only validates if the fragments are rejoined.
    peer.send(&Frame::Headers {
        stream_id: StreamId::new(1),
        block: Bytes::from_static(b"\x82\x86"),
        end_stream: true,
        end_headers: false,
    });
    peer.send(&Frame::Continuation {
        stream_id: StreamId::new(1),
        block: Bytes::from_static(b"\x84"),
        end_headers: true,
    });
    // A PING after the completed block still gets its ACK, which it only can
    // if the connection is healthy.
    peer.send(&Frame::Ping {
        data: [1; 8],
        ack: false,
    });

    let mut saw_response = false;
    loop {
        match peer.recv() {
            Frame::Headers { stream_id, .. } => {
                assert_eq!(stream_id, StreamId::new(1));
                saw_response = true;
            }
            Frame::Data { .. } => {}
            frame => {
                assert_eq!(
                    frame,
                    Frame::Ping {
                        data: [1; 8],
                        ack: true
                    },
                );
                break;
            }
        }
    }
    assert!(saw_response, "the rejoined block was a complete request");
}

#[test]
fn a_goaway_reports_the_highest_stream_seen() {
    let goaway = goaway_after(&[
        Frame::Headers {
            stream_id: StreamId::new(3),
            block: Bytes::new(),
            end_stream: true,
            end_headers: true,
        },
        Frame::WindowUpdate {
            stream_id: StreamId::connection(),
            increment: 0,
        },
    ]);
    let Frame::GoAway { last_stream_id, .. } = goaway else {
        panic!("expected GOAWAY, got {goaway:?}");
    };
    assert_eq!(
        last_stream_id,
        StreamId::new(3),
        "GOAWAY must name the last stream we processed (§6.8)",
    );
}

#[test]
fn a_malformed_frame_produces_a_goaway() {
    let mut peer = TestPeer::connect();
    peer.complete_handshake();

    // RST_STREAM with a 3-octet payload: a frame-size error (§6.4).
    peer.send_raw(&[0, 0, 3, 0x3, 0, 0, 0, 0, 1, 0, 0, 0]);

    let goaway = peer.recv();
    assert!(
        matches!(
            goaway,
            Frame::GoAway {
                error_code: ErrorCode::FrameSizeError,
                ..
            }
        ),
        "expected GOAWAY(FRAME_SIZE_ERROR), got {goaway:?}",
    );
}

// ---- HPACK on the connection --------------------------------------------

#[test]
fn a_request_header_block_is_decoded() {
    let mut peer = TestPeer::connect();
    peer.complete_handshake();

    let mut encoder = HpackEncoder::new(Settings::default().header_table_size as usize);
    let mut block = BytesMut::new();
    encoder.encode(
        &[
            field(":method", "GET"),
            field(":scheme", "https"),
            field(":path", "/"),
            field(":authority", "example.com"),
        ],
        &mut block,
    );
    peer.send(&Frame::Headers {
        stream_id: StreamId::new(1),
        block: block.freeze(),
        end_stream: true,
        end_headers: true,
    });
    let summary = peer.summary();
    assert_eq!(summary.header_blocks_decoded, 1);
}

/// The block is one HPACK unit however many frames carry it, so a block
/// split across CONTINUATION must decode identically to an unsplit one.
#[test]
fn a_header_block_split_across_continuation_decodes_once() {
    let mut peer = TestPeer::connect();
    peer.complete_handshake();

    let mut encoder = HpackEncoder::new(Settings::default().header_table_size as usize);
    let mut block = BytesMut::new();
    encoder.encode(
        &[
            field(":method", "GET"),
            field(":path", "/split"),
            field("x-custom", "value"),
        ],
        &mut block,
    );
    let block = block.freeze();
    // Cut the block mid-representation, which is legal: fragment
    // boundaries have nothing to do with field boundaries (§4.3).
    let (head, tail) = block.split_at(3);
    peer.send(&Frame::Headers {
        stream_id: StreamId::new(1),
        block: Bytes::copy_from_slice(head),
        end_stream: false,
        end_headers: false,
    });
    peer.send(&Frame::Continuation {
        stream_id: StreamId::new(1),
        block: Bytes::copy_from_slice(tail),
        end_headers: true,
    });
    let summary = peer.summary();
    assert_eq!(
        summary.header_blocks_decoded, 1,
        "the two fragments are one block",
    );
}

#[test]
fn a_corrupt_header_block_produces_a_compression_goaway() {
    // Index 62 with an empty dynamic table: a reference to an entry that
    // was never inserted, which means the tables have diverged.
    let goaway = goaway_after(&[Frame::Headers {
        stream_id: StreamId::new(1),
        block: Bytes::from_static(&[0xbe]),
        end_stream: true,
        end_headers: true,
    }]);
    assert!(
        matches!(
            goaway,
            Frame::GoAway {
                error_code: ErrorCode::CompressionError,
                ..
            }
        ),
        "expected GOAWAY(COMPRESSION_ERROR), got {goaway:?}",
    );
}

/// The CONTINUATION-flood guard: a peer that never sets END_HEADERS must
/// not be able to grow our buffer without bound.
#[test]
fn an_endless_header_block_is_cut_off() {
    let mut peer = TestPeer::connect();
    peer.complete_handshake();

    peer.send(&Frame::Headers {
        stream_id: StreamId::new(1),
        block: Bytes::from(vec![0u8; 1024]),
        end_stream: false,
        end_headers: false,
    });
    // Keep going past the cap.
    for _ in 0..(MAX_HEADER_BLOCK_BYTES / 1024) {
        peer.send(&Frame::Continuation {
            stream_id: StreamId::new(1),
            block: Bytes::from(vec![0u8; 1024]),
            end_headers: false,
        });
    }

    let goaway = peer
        .drain()
        
        .into_iter()
        .find(|f| matches!(f, Frame::GoAway { .. }))
        .expect("the flood should have been cut off with a GOAWAY");
    assert!(
        matches!(
            goaway,
            Frame::GoAway {
                error_code: ErrorCode::EnhanceYourCalm,
                ..
            }
        ),
        "expected GOAWAY(ENHANCE_YOUR_CALM), got {goaway:?}",
    );
}

#[test]
fn a_sensitive_value_is_not_written_to_the_log() {
    let headers = [
        field(":path", "/"),
        secret("authorization", "Bearer hunter2"),
    ];
    let rendered = redacted(&headers);
    assert!(rendered.contains(":path: /"), "{rendered}");
    assert!(
        !rendered.contains("hunter2"),
        "a never-indexed value must not reach the log: {rendered}",
    );
    assert!(rendered.contains("authorization: <redacted>"), "{rendered}");
}

#[test]
fn the_advertised_settings_bound_the_header_list() {
    let settings = Settings::server();
    assert_eq!(
        settings.max_header_list_size,
        Some(MAX_HEADER_LIST_SIZE),
        "the bomb guard must be advertised, or a peer cannot respect it",
    );
    let params = match settings.to_frame() {
        Frame::Settings { params, .. } => params,
        other => panic!("expected SETTINGS, got {other:?}"),
    };
    assert!(
        params.contains(&(setting_id::MAX_HEADER_LIST_SIZE, MAX_HEADER_LIST_SIZE)),
        "MAX_HEADER_LIST_SIZE missing from {params:?}",
    );
}

#[test]
fn a_rendered_header_list_reads_as_a_list() {
    let headers = [field("a", "1"), secret("b", "2"), field("c", "3")];
    assert_eq!(redacted(&headers), "[a: 1, b: <redacted>, c: 3]");
    assert_eq!(redacted(&[]), "[]");
    let odd = [Header::new(
        Bytes::from_static(b"x"),
        Bytes::from_static(b"\xff"),
    )];
    assert_eq!(redacted(&odd), "[x: \u{fffd}]");
    // Values that are withheld make no difference.
    assert_eq!(
        redacted(&[secret("b", "2")]),
        redacted(&[secret("b", "something else")])
    );
}

// ---- requests and their answers ------------------------------------------

/// A request block, encoded from scratch.
fn block(headers: &[Header]) -> Bytes {
    let mut out = BytesMut::new();
    HpackEncoder::new(0).encode(headers, &mut out);
    out.freeze()
}

fn request(id: u32, method: &str, path: &str, end_stream: bool) -> Frame {
    Frame::Headers {
        stream_id: StreamId::new(id),
        block: block(&[
            field(":method", method),
            field(":scheme", "https"),
            field(":path", path),
        ]),
        end_stream,
        end_headers: true,
    }
}

fn data(id: u32, octets: &[u8], end_stream: bool) -> Frame {
    Frame::Data {
        stream_id: StreamId::new(id),
        data: Bytes::copy_from_slice(octets),
        end_stream,
    }
}

fn window_update(id: u32, increment: u32) -> Frame {
    Frame::WindowUpdate {
        stream_id: StreamId::new(id),
        increment,
    }
}

/// How many DATA octets went to a stream, and whether it was ended.
fn received(frames: &[Frame], id: u32) -> (usize, bool) {
    let mut total = 0;
    let mut ended = false;
    for frame in frames {
        match frame {
            Frame::Data { stream_id, data, end_stream } if stream_id.get() == id => {
                total += data.len();
                ended = ended || *end_stream;
            }
            Frame::Headers { stream_id, end_stream, .. } if stream_id.get() == id => {
                ended = ended || *end_stream;
            }
            _ => {}
        }
    }
    (total, ended)
}

#[test]
fn a_sized_request_is_answered_with_that_many_octets() {
    let mut peer = TestPeer::connect();
    peer.complete_handshake();
    peer.send(&request(1, "GET", "/bytes/20000?x=1", true));
    let frames = peer.drain();
    assert_eq!(received(&frames, 1), (20_000, true));
    assert_eq!(frames.len(), 3, "one HEADERS, two DATA: {frames:?}");
    let Frame::Headers { block, .. } = &frames[0] else {
        panic!("expected HEADERS, got {:?}", frames[0]);
    };
    assert_eq!(
        HpackDecoder::new(4096, None).decode(block).expect("decode"),
        vec![field(":status", "200"), field("content-length", "20000")]
    );
    assert_eq!(peer.summary().data_bytes_sent, 20_000);
    assert_eq!(peer.summary().streams_opened, 1);
}

#[test]
fn a_body_that_arrives_with_its_request_is_echoed() {
    let mut peer = TestPeer::connect();
    peer.complete_handshake();
    let mut wire = BytesMut::new();
    let mut codec = FrameCodec::new(MAX_ALLOWED_FRAME_SIZE);
    codec.encode(&request(1, "POST", "/", false), &mut wire).expect("encode");
    codec.encode(&data(1, b"hello ", false), &mut wire).expect("encode");
    codec.encode(&data(1, b"world", true), &mut wire).expect("encode");
    peer.send_raw(&wire);
    let frames = peer.drain();
    assert_eq!(received(&frames, 1), (11, true), "{frames:?}");
    assert_eq!(peer.summary().peak_concurrent_streams, 1);
}

#[test]
fn a_full_window_stalls_and_credit_resumes_it() {
    let mut peer = TestPeer::connect();
    peer.send_raw(PREFACE.as_bytes());
    peer.send(&Frame::Settings {
        ack: false,
        params: vec![(setting_id::INITIAL_WINDOW_SIZE, 100)],
    });
    peer.send(&request(1, "GET", "/bytes/250", true));
    assert_eq!(received(&peer.drain(), 1), (100, false));
    assert_eq!(peer.summary().flow_control_stalls, 1);

    peer.send(&window_update(1, 50));
    assert_eq!(received(&peer.drain(), 1), (50, false));
    peer.send(&Frame::Settings {
        ack: false,
        params: vec![(setting_id::INITIAL_WINDOW_SIZE, 1000)],
    });
    assert_eq!(received(&peer.drain(), 1), (100, true));
}

#[test]
fn the_connection_window_is_shared_and_taken_in_turns() {
    let mut peer = TestPeer::connect();
    peer.complete_handshake();
    peer.send(&request(1, "GET", "/bytes/65535", true));
    assert_eq!(received(&peer.drain(), 1), (65_535, true));
    // Nothing is left at the connection level.
    peer.send(&request(3, "GET", "/bytes/40000", true));
    peer.send(&request(5, "GET", "/bytes/40000", true));
    let frames = peer.drain();
    assert_eq!(received(&frames, 3), (0, false));
    assert_eq!(received(&frames, 5), (0, false));

    peer.send(&window_update(0, 32_768));
    let frames = peer.drain();
    assert_eq!(received(&frames, 3), (16_384, false));
    assert_eq!(received(&frames, 5), (16_384, false));
}

#[test]
fn a_malformed_request_costs_its_stream_only() {
    let mut peer = TestPeer::connect();
    peer.complete_handshake();
    peer.send(&Frame::Headers {
        stream_id: StreamId::new(1),
        block: block(&[field(":method", "GET")]),
        end_stream: true,
        end_headers: true,
    });
    assert_eq!(
        peer.recv(),
        Frame::RstStream {
            stream_id: StreamId::new(1),
            error_code: ErrorCode::ProtocolError,
        }
    );
    peer.send(&request(3, "GET", "/bytes/1", true));
    assert_eq!(received(&peer.drain(), 3), (1, true));
    assert_eq!(peer.summary().streams_reset, 1);
}

#[test]
fn a_stream_past_the_limit_is_refused() {
    let mut settings = Settings::server();
    settings.max_concurrent_streams = Some(1);
    let mut peer = TestPeer::connect_to(Connection::with_settings(settings));
    peer.complete_handshake();
    peer.send(&request(1, "POST", "/", false));
    peer.drain();
    peer.send(&request(3, "GET", "/", true));
    assert_eq!(
        peer.recv(),
        Frame::RstStream {
            stream_id: StreamId::new(3),
            error_code: ErrorCode::RefusedStream,
        }
    );
}

#[test]
fn a_body_that_belies_its_declared_length_is_reset() {
    let mut peer = TestPeer::connect();
    peer.complete_handshake();
    peer.send(&Frame::Headers {
        stream_id: StreamId::new(1),
        block: block(&[
            field(":method", "POST"),
            field(":scheme", "https"),
            field(":path", "/"),
            field("content-length", "5"),
        ]),
        end_stream: false,
        end_headers: true,
    });
    peer.drain();
    peer.send(&data(1, b"four", true));
    assert!(
        peer.drain().contains(&Frame::RstStream {
            stream_id: StreamId::new(1),
            error_code: ErrorCode::ProtocolError,
        }),
        "the body was one octet short"
    );
}

#[test]
fn half_a_window_of_body_is_credited_at_both_levels() {
    let mut peer = TestPeer::connect();
    peer.complete_handshake();
    // A sized answer, so the body is read and dropped.
    peer.send(&request(1, "POST", "/bytes/1", false));
    let half = STREAM_INITIAL_WINDOW as usize / 2;
    for _ in 0..half / 16_384 {
        peer.send(&data(1, &[0; 16_384], false));
    }
    let frames = peer.drain();
    assert!(
        frames.contains(&window_update(1, half as u32)),
        "the stream's credit comes back: {frames:?}"
    );
    for _ in 0..(CONNECTION_WINDOW as usize / 2 - half) / 16_384 {
        peer.send(&data(1, &[0; 16_384], false));
    }
    let frames = peer.drain();
    assert!(frames.contains(&window_update(0, CONNECTION_WINDOW as u32 / 2)));
}

#[test]
fn overspending_the_connection_window_is_fatal() {
    let mut peer = TestPeer::connect();
    peer.complete_handshake();
    peer.send(&request(1, "GET", "/bytes/1", true));
    peer.drain();
    // The stream is finished: its data is answered with a reset, and still
    // counts at the connection level.
    for _ in 0..(CONNECTION_WINDOW as usize / 16_384) + 1 {
        peer.send(&data(1, &[0; 16_384], false));
    }
    let frames = peer.drain();
    assert!(
        !frames.iter().any(|f| matches!(f, Frame::GoAway { .. })),
        "what a closed stream gets is credited at once: {frames:?}"
    );
    assert!(frames.iter().any(|f| matches!(
        f,
        Frame::RstStream { error_code: ErrorCode::StreamClosed, .. }
    )));
}

#[test]
fn data_on_a_stream_that_was_never_opened_is_fatal() {
    let goaway = goaway_after(&[data(9, b"x", false)]);
    assert!(
        matches!(goaway, Frame::GoAway { error_code: ErrorCode::ProtocolError, .. }),
        "got {goaway:?}"
    );
}

#[test]
fn a_reset_stops_the_answer() {
    let mut peer = TestPeer::connect();
    peer.send_raw(PREFACE.as_bytes());
    peer.send(&Frame::Settings {
        ack: false,
        params: vec![(setting_id::INITIAL_WINDOW_SIZE, 10)],
    });
    peer.send(&request(1, "GET", "/bytes/100", true));
    assert_eq!(received(&peer.drain(), 1), (10, false));
    peer.send(&Frame::RstStream {
        stream_id: StreamId::new(1),
        error_code: ErrorCode::Cancel,
    });
    peer.send(&window_update(0, 1000));
    assert!(peer.drain().is_empty());
    assert_eq!(peer.summary().streams_reset, 1);
    // Credit for a finished stream was probably in flight: ignored.
    peer.send(&window_update(1, 1000));
    assert!(peer.drain().is_empty());
    assert!(!peer.closed);
}

#[test]
fn a_trailer_section_must_end_its_request() {
    let mut peer = TestPeer::connect();
    peer.complete_handshake();
    peer.send(&request(1, "POST", "/", false));
    peer.send(&data(1, b"abc", false));
    peer.send(&Frame::Headers {
        stream_id: StreamId::new(1),
        block: block(&[field("x-checksum", "1")]),
        end_stream: true,
        end_headers: true,
    });
    let frames = peer.drain();
    assert_eq!(received(&frames, 1), (3, true), "the echo ends with its request");
    assert!(!frames.iter().any(|f| matches!(f, Frame::RstStream { .. })));

    peer.send(&request(3, "POST", "/", false));
    peer.drain();
    peer.send(&Frame::Headers {
        stream_id: StreamId::new(3),
        block: block(&[field("x-checksum", "1")]),
        end_stream: false,
        end_headers: true,
    });
    assert!(matches!(
        peer.recv(),
        Frame::RstStream { error_code: ErrorCode::ProtocolError, .. }
    ));
}

#[test]
fn what_follows_the_end_of_a_request_is_stream_closed() {
    let mut peer = TestPeer::connect();
    peer.complete_handshake();
    // With little window the answers stay unfinished, and the streams open.
    peer.send(&Frame::Settings {
        ack: false,
        params: vec![(setting_id::INITIAL_WINDOW_SIZE, 10)],
    });
    peer.send(&request(1, "GET", "/bytes/100", true));
    peer.send(&request(3, "GET", "/bytes/100", true));
    peer.drain();
    // Not trailers: the request has ended, whatever the section looks like.
    peer.send(&Frame::Headers {
        stream_id: StreamId::new(1),
        block: block(&[field("x-checksum", "1")]),
        end_stream: false,
        end_headers: true,
    });
    assert!(peer.drain().iter().any(|f| matches!(
        f,
        Frame::RstStream { stream_id, error_code: ErrorCode::StreamClosed }
            if stream_id.get() == 1
    )));
    peer.send(&data(3, b"late", true));
    assert!(peer.drain().iter().any(|f| matches!(
        f,
        Frame::RstStream { stream_id, error_code: ErrorCode::StreamClosed }
            if stream_id.get() == 3
    )));
}

#[test]
fn a_late_field_section_is_not_answered_for_its_size() {
    let mut settings = Settings::server();
    settings.max_header_list_size = Some(200);
    let mut peer = TestPeer::connect_to(Connection::with_settings(settings));
    peer.complete_handshake();
    peer.send(&Frame::Settings {
        ack: false,
        params: vec![(setting_id::INITIAL_WINDOW_SIZE, 10)],
    });
    peer.send(&request(1, "GET", "/bytes/100", true));
    peer.drain();
    peer.send(&Frame::Headers {
        stream_id: StreamId::new(1),
        block: block(&[field("x-long", &"v".repeat(300))]),
        end_stream: true,
        end_headers: true,
    });
    let frames = peer.drain();
    assert!(!frames.iter().any(|f| matches!(f, Frame::Headers { .. })), "{frames:?}");
    assert!(frames.iter().any(|f| matches!(
        f,
        Frame::RstStream { error_code: ErrorCode::StreamClosed, .. }
    )));
}

#[test]
fn a_header_list_over_the_limit_is_answered_and_the_connection_lives() {
    let mut settings = Settings::server();
    settings.max_header_list_size = Some(100);
    let mut peer = TestPeer::connect_to(Connection::with_settings(settings));
    peer.complete_handshake();
    peer.send(&request(1, "GET", "/a-path-too-long-for-the-limit", true));
    let frames = peer.drain();
    let Some(Frame::Headers { block, end_stream: true, .. }) = frames.first() else {
        panic!("expected an answer, got {frames:?}");
    };
    assert_eq!(
        HpackDecoder::new(4096, None).decode(block).expect("decode")[0],
        field(":status", "431")
    );
    assert!(!peer.closed);
}

#[test]
fn a_fault_is_reported_with_its_reason() {
    let goaway = goaway_after(&[Frame::Settings {
        ack: false,
        params: vec![(setting_id::MAX_FRAME_SIZE, 1)],
    }]);
    let Frame::GoAway { debug_data, .. } = goaway else {
        panic!("expected GOAWAY, got {goaway:?}");
    };
    assert!(!debug_data.is_empty());

    let mut conn = Connection::new();
    conn.fail(ConnectionError::with_text(ErrorCode::InternalError, "why"));
    assert_eq!(
        &conn.take_output()[..],
        b"\x00\x00\x0b\x07\x00\x00\x00\x00\x00\x00\x00\x00\x00\x00\x00\x00\x02why"
    );
}

#[test]
fn a_request_can_be_answered_by_the_caller() {
    let mut conn = Connection::new();
    conn.feed(PREFACE.as_bytes());
    assert!(matches!(conn.accept_preface(), Preface::Accepted));
    conn.handle_frame(request(1, "GET", "/", true)).expect("a request");
    let list = conn.take_requests();
    assert_eq!(list.len(), 1);
    assert_eq!(&list[0].head.path[..], b"/");
    assert!(list[0].end_stream);
    let (response, body) = built_in_response(&list[0].head, true, 7);
    assert_eq!(response.status, 200);
    assert!(matches!(body, Body::Fixed(b) if b.len() == 7));
    conn.send_response(
        list[0].id,
        Response::status(404),
        Body::Fixed(Bytes::from_static(b"gone")),
    )
    .expect("queued");
    conn.pump_outbound().expect("sent");
    let mut buf = BytesMut::from(&conn.take_output()[..]);
    let mut codec = FrameCodec::new(MAX_ALLOWED_FRAME_SIZE);
    assert!(matches!(
        codec.decode(&mut buf).expect("decode"),
        Some(Frame::Headers { end_stream: false, .. })
    ));
    assert_eq!(
        codec.decode(&mut buf).expect("decode"),
        Some(data(1, b"gone", true))
    );
    assert!(buf.is_empty());
}

#[test]
fn a_client_side_advertises_what_its_tuning_says() {
    let settings = Tuning::default().client_settings();
    assert!(!settings.enable_push);
    assert_eq!(settings.max_header_list_size, Some(MAX_HEADER_LIST_SIZE));
    assert_eq!(Settings::server().max_concurrent_streams, Some(MAX_CONCURRENT_STREAMS));
    assert_eq!(CONNECTION_WINDOW_BOOTSTRAP, 983_041);
}

#[test]
fn error_codes_keep_their_wire_values() {
    for v in 0..14u32 {
        assert_eq!(ErrorCode::from_u32(v).as_u32(), v);
    }
    assert_eq!(ErrorCode::from_u32(14), ErrorCode::InternalError);
    assert_eq!(ErrorCode::EnhanceYourCalm.as_u32(), 0xb);
}

#[test]
fn a_stream_is_ended_once() {
    let mut peer = TestPeer::connect();
    peer.complete_handshake();
    peer.send(&request(1, "POST", "/bytes/10", false));
    let endings = |frames: &[Frame]| {
        frames
            .iter()
            .filter(|f| matches!(f, Frame::Data { end_stream: true, .. }))
            .count()
    };
    assert_eq!(endings(&peer.drain()), 1);
    // The request goes on; the answer does not.
    peer.send(&data(1, b"more", false));
    peer.send(&window_update(1, 100));
    peer.send(&data(1, b"", true));
    assert_eq!(endings(&peer.drain()), 0);
    assert!(!peer.closed);
}

#[test]
fn a_large_answer_does_not_starve_a_small_one() {
    let mut peer = TestPeer::connect();
    peer.complete_handshake();
    peer.send(&window_update(0, 1 << 20));
    let mut wire = BytesMut::new();
    let mut codec = FrameCodec::new(MAX_ALLOWED_FRAME_SIZE);
    codec.encode(&request(1, "GET", "/bytes/500000", true), &mut wire).expect("encode");
    codec.encode(&request(3, "GET", "/bytes/100", true), &mut wire).expect("encode");
    peer.send_raw(&wire);
    let order: Vec<u32> = peer
        .drain()
        .iter()
        .filter(|f| matches!(f, Frame::Data { .. }))
        .map(|f| f.stream_id().get())
        .collect();
    assert_eq!(&order[..3], &[1, 3, 1], "the small one goes second");
}
