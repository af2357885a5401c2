use bytes::{Bytes, BytesMut};
use h2proxy_core::conn::engine::PREFACE;
use h2proxy_core::conn::setting_id;
use h2proxy_core::conn::{ConnectionError, ErrorCode, Tuning};
use h2proxy_core::frame::{Frame, FrameCodec, MAX_ALLOWED_FRAME_SIZE};
use h2proxy_core::hpack::{Header, HpackDecoder, HpackEncoder};
use h2proxy_core::service::{RequestHead, ServiceEvent};
use h2proxy_core::stream::StreamId;
use h2proxy_core::upstream::probe::{Probe, ProbeAction};
use h2proxy_core::upstream::{
    answer_to_undeliverable, Effect, RequestId, ToUpstream, UpstreamConnection, Wake,
};

const SECOND: u64 = 1_000_000_000;


/// A 5 s / 5 s probe whose clock starts exactly at `start`, so every
/// assertion below is about the arithmetic rather than about how long the
/// test itself took.
fn probe(start: u64) -> Probe {
    Probe::new(5 * SECOND, 5 * SECOND, start)
}

#[test]
fn a_connection_nobody_configured_never_probes_and_never_wakes() {
    let mut off = Probe::disabled();
    let now = 50 * SECOND + 3600 * SECOND;
    assert_eq!(off.next_wake(), None, "a disabled probe must park forever");
    assert_eq!(off.due(now), ProbeAction::Nothing);
}

#[test]
fn a_quiet_socket_is_probed_and_a_busy_one_is_not() {
    let start = 50 * SECOND;
    let mut p = probe(start);

    assert_eq!(p.due(start + 4 * SECOND), ProbeAction::Nothing);
    // Traffic resets the clock, which is why an ordinary busy connection
    // never sends a probe at all.
    p.heard(start + 4 * SECOND);
    assert_eq!(p.due(start + 8 * SECOND), ProbeAction::Nothing);
    assert!(matches!(
        p.due(start + 9 * SECOND),
        ProbeAction::Send(_)
    ));
}

#[test]
fn an_unanswered_probe_expires_and_an_answered_one_does_not() {
    let start = 50 * SECOND;
    let mut p = probe(start);
    let ProbeAction::Send(nonce) = p.due(start + 5 * SECOND) else {
        panic!("a probe was due and was not sent");
    };
    // Still waiting, not yet expired.
    assert_eq!(p.due(start + 9 * SECOND), ProbeAction::Nothing);
    assert_eq!(p.due(start + 10 * SECOND), ProbeAction::Expired);

    let mut answered = probe(start);
    let ProbeAction::Send(first) = answered.due(start + 5 * SECOND) else {
        panic!("a probe was due and was not sent");
    };
    assert!(answered.acked(&first, start + 6 * SECOND));
    assert_eq!(
        answered.due(start + 10 * SECOND),
        ProbeAction::Nothing,
        "an answered probe expired anyway; every idle backend would be ejected",
    );
    // The next probe carries a different payload, so this round's ACK cannot
    // answer the next round's question.
    let ProbeAction::Send(second) = answered.due(start + 11 * SECOND) else {
        panic!("the idle period elapsed again with no probe");
    };
    assert_ne!(first, second, "two probes reused a nonce");
    assert_eq!(
        nonce, first,
        "unrelated probes disagreed on the first nonce"
    );
}

#[test]
fn a_stale_ack_is_not_mistaken_for_the_answer_to_this_probe() {
    // The payload is checked, not just the flag. A stale ACK is still traffic,
    // though, and traffic is liveness.
    let start = 50 * SECOND;
    let stale = 99u64.to_be_bytes();
    let mut p = probe(start);
    assert!(matches!(
        p.due(start + 5 * SECOND),
        ProbeAction::Send(_)
    ));
    assert!(
        !p.acked(&stale, start + 6 * SECOND),
        "a payload we never sent was matched to the probe in flight",
    );
    assert!(
        p.outstanding.is_some(),
        "a stale ACK cleared the probe it did not answer",
    );
    assert_eq!(
        p.due(start + 10 * SECOND),
        ProbeAction::Nothing,
        "the backend spoke; only silence should end a connection",
    );
}

#[test]
fn a_backend_that_talks_without_acking_is_left_alone() {
    // The false-positive case that matters under load: a peer mid-response
    // is alive whatever it does with our PING, and disconnecting it would
    // cost real requests to defend against nothing.
    let start = 50 * SECOND;
    let mut p = probe(start);
    assert!(matches!(
        p.due(start + 5 * SECOND),
        ProbeAction::Send(_)
    ));
    p.heard(start + 7 * SECOND);
    assert_eq!(p.due(start + 10 * SECOND), ProbeAction::Nothing);
    // ...and the cycle restarts from the last thing it said, not from the
    // probe, so the next probe is a full idle period away.
    assert_eq!(p.due(start + 11 * SECOND), ProbeAction::Nothing);
    assert!(matches!(
        p.due(start + 12 * SECOND),
        ProbeAction::Send(_)
    ));
}

// ---- a backend speaking our own codec --------------------------------------

fn field(name: &str, value: &str) -> Header {
    Header::new(
        Bytes::copy_from_slice(name.as_bytes()),
        Bytes::copy_from_slice(value.as_bytes()),
    )
}

fn head(path: &str) -> RequestHead {
    RequestHead::from_headers(&[
        field(":method", "POST"),
        field(":scheme", "http"),
        field(":path", path),
    ])
    .expect("well-formed")
}

fn ask(request: u32, end_stream: bool) -> ToUpstream {
    ToUpstream::Request {
        id: RequestId::new(request),
        client_id: StreamId::new(2 * request + 101),
        client: 7,
        head: Box::new(head("/")),
        end_stream,
    }
}

/// The backend's side: what it is sent, and the answers it gives.
struct TestBackend {
    conn: UpstreamConnection,
    codec: FrameCodec,
    encoder: HpackEncoder,
    decoder: HpackDecoder,
    buf: BytesMut,
    now: u64,
    open: bool,
}

impl TestBackend {
    fn connect() -> TestBackend {
        TestBackend::connect_to(UpstreamConnection::new())
    }

    fn connect_to(mut conn: UpstreamConnection) -> TestBackend {
        conn.start().expect("the opening frames encode");
        let mut b = TestBackend {
            conn,
            codec: FrameCodec::new(MAX_ALLOWED_FRAME_SIZE),
            encoder: HpackEncoder::new(4096),
            decoder: HpackDecoder::new(4096, None),
            buf: BytesMut::new(),
            now: 100 * SECOND,
            open: true,
        };
        b.flush();
        b
    }

    fn flush(&mut self) {
        let n = self.conn.output().len();
        if n > 0 {
            self.buf.extend_from_slice(self.conn.output());
            self.conn.wake(Wake::Wrote { n }, self.now).expect("written");
        }
        assert!(self.conn.output().is_empty());
    }

    fn wake(&mut self, wake: Wake) {
        let outcome = match self.conn.wake(wake, self.now) {
            Ok(true) => self.conn.turn(self.now),
            other => other,
        };
        match outcome {
            Ok(open) => self.open = self.open && open,
            Err(e) => {
                self.conn.fail(e);
                self.open = false;
            }
        }
        self.flush();
    }

    fn tell(&mut self, msg: ToUpstream) {
        self.wake(Wake::Message(msg));
    }

    fn send(&mut self, frame: &Frame) {
        let mut out = BytesMut::new();
        self.codec.encode(frame, &mut out).expect("encode");
        self.wake(Wake::Received(out.freeze()));
    }

    fn respond(&mut self, id: u32, headers: &[Header], end_stream: bool) {
        let mut block = BytesMut::new();
        self.encoder.encode(headers, &mut block);
        self.send(&Frame::Headers {
            stream_id: StreamId::new(id),
            block: block.freeze(),
            end_stream,
            end_headers: true,
        });
    }

    fn data(&mut self, id: u32, octets: &[u8], end_stream: bool) {
        self.send(&Frame::Data {
            stream_id: StreamId::new(id),
            data: Bytes::copy_from_slice(octets),
            end_stream,
        });
    }

    fn frames(&mut self) -> Vec<Frame> {
        let mut frames = Vec::new();
        while let Some(frame) = self.codec.decode(&mut self.buf).expect("decode") {
            frames.push(frame);
        }
        frames
    }

    fn settings(&mut self, params: Vec<(u16, u32)>) {
        self.send(&Frame::Settings { ack: false, params });
    }

    /// Consume the client's preface and exchange SETTINGS.
    fn complete_handshake(&mut self) {
        let preface = self.buf.split_to(PREFACE.len());
        assert_eq!(&preface[..], PREFACE.as_bytes());
        self.settings(vec![(setting_id::MAX_CONCURRENT_STREAMS, 100)]);
        let frames = self.frames();
        assert!(matches!(frames[0], Frame::Settings { ack: false, .. }));
        assert!(matches!(
            frames[1],
            Frame::WindowUpdate { increment: 983_041, .. }
        ));
        assert!(matches!(frames[2], Frame::Settings { ack: true, .. }));
        assert_eq!(frames.len(), 3);
        let effects = self.conn.take_effects();
        assert!(matches!(effects[..], [Effect::MaxConcurrent(100)]));
    }

    /// What clients were told, in order.
    fn told(&mut self) -> Vec<ServiceEvent> {
        let mut out = Vec::new();
        for effect in self.conn.take_effects() {
            if let Effect::Deliver { client, event } = effect {
                assert_eq!(client, 7);
                out.push(event);
            }
        }
        out
    }
}

#[test]
fn the_preface_opens_the_connection() {
    let mut b = TestBackend::connect();
    b.complete_handshake();
    assert!(b.conn.summary().handshake_completed);
}

#[test]
fn a_request_is_answered_and_the_answer_delivered() {
    let mut b = TestBackend::connect();
    b.complete_handshake();
    b.tell(ask(0, false));
    b.tell(ToUpstream::Body {
        id: RequestId::new(0),
        data: Bytes::from_static(b"ping"),
        end_stream: true,
    });
    let frames = b.frames();
    let Frame::Headers { stream_id, block, end_stream: false, .. } = &frames[0] else {
        panic!("expected HEADERS, got {frames:?}");
    };
    assert_eq!(stream_id.get(), 1);
    assert_eq!(
        b.decoder.decode(block).expect("decode"),
        vec![field(":method", "POST"), field(":scheme", "http"), field(":path", "/")]
    );
    assert_eq!(
        frames[1],
        Frame::Data {
            stream_id: StreamId::new(1),
            data: Bytes::from_static(b"ping"),
            end_stream: true,
        }
    );
    // The client's credit comes back once its octets were sent on.
    assert!(matches!(
        b.told()[..],
        [ServiceEvent::BodyAccepted { n: 4, .. }]
    ));

    b.respond(1, &[field(":status", "200"), field("server", "x")], false);
    b.data(1, b"pong", false);
    b.respond(1, &[field("x-checksum", "1")], true);
    let told = b.told();
    assert!(
        matches!(
            &told[..],
            [
                ServiceEvent::Head { response, end_stream: false, .. },
                ServiceEvent::Data { data, end_stream: false, .. },
                ServiceEvent::Trailers { .. },
            ] if response.status == 200 && &data[..] == b"pong"
        ),
        "{told:?}"
    );
    assert_eq!(b.conn.summary().responses_received, 1);
    assert_eq!(b.conn.summary().data_bytes_received, 4);
}

#[test]
fn ids_increase_in_the_order_requests_reach_the_wire() {
    let mut b = TestBackend::connect();
    b.complete_handshake();
    for request in [5, 2, 9] {
        b.tell(ask(request, true));
    }
    let ids: Vec<u32> = b.frames().iter().map(|f| f.stream_id().get()).collect();
    assert_eq!(ids, [1, 3, 5]);
}

#[test]
fn requests_past_the_backends_limit_wait_their_turn() {
    let mut b = TestBackend::connect();
    b.complete_handshake();
    b.settings(vec![(setting_id::MAX_CONCURRENT_STREAMS, 1)]);
    b.frames();
    b.tell(ask(0, true));
    b.tell(ask(1, false));
    b.tell(ToUpstream::Body {
        id: RequestId::new(1),
        data: Bytes::from_static(b"held"),
        end_stream: true,
    });
    assert_eq!(b.frames().len(), 1, "the second waits");
    b.respond(1, &[field(":status", "204")], true);
    let frames = b.frames();
    assert!(matches!(&frames[0], Frame::Headers { stream_id, .. } if stream_id.get() == 3));
    assert!(
        matches!(&frames[1], Frame::Data { data, end_stream: true, .. } if &data[..] == b"held")
    );
}

#[test]
fn a_request_cancelled_while_it_waits_is_never_sent() {
    let mut b = TestBackend::connect();
    b.complete_handshake();
    b.settings(vec![(setting_id::MAX_CONCURRENT_STREAMS, 0)]);
    b.frames();
    b.tell(ask(0, true));
    b.tell(ToUpstream::Cancel { id: RequestId::new(0), code: ErrorCode::Cancel });
    b.settings(vec![(setting_id::MAX_CONCURRENT_STREAMS, 10)]);
    assert!(b.frames().iter().all(|f| matches!(f, Frame::Settings { ack: true, .. })));
    assert_eq!(b.conn.summary().requests_sent, 0);
}

#[test]
fn response_credit_waits_for_the_client() {
    let tuning = Tuning { stream_window: 1000, connection_window: 65_535, ..Tuning::default() };
    let mut b = TestBackend::connect_to(UpstreamConnection::with_tuning(tuning));
    b.buf.clear();
    b.settings(vec![]);
    b.tell(ask(0, true));
    b.respond(1, &[field(":status", "200")], false);
    b.frames();
    b.data(1, &[0; 600], false);
    assert!(b.frames().is_empty(), "nothing is credited on arrival");
    b.tell(ToUpstream::Released { id: RequestId::new(0), n: 600 });
    assert_eq!(
        b.frames(),
        vec![Frame::WindowUpdate { stream_id: StreamId::new(1), increment: 600 }]
    );
}

#[test]
fn a_goaway_keeps_what_was_promised_and_returns_the_rest() {
    let mut b = TestBackend::connect();
    b.complete_handshake();
    b.tell(ask(0, true));
    b.tell(ask(1, true));
    b.conn.take_effects();
    b.send(&Frame::GoAway {
        last_stream_id: StreamId::new(1),
        error_code: ErrorCode::NoError,
        debug_data: Bytes::new(),
    });
    let effects = b.conn.take_effects();
    assert!(effects.iter().any(|e| matches!(e, Effect::Retire)));
    assert!(
        effects.iter().any(|e| matches!(
            e,
            Effect::Deliver {
                event: ServiceEvent::Reset { id, code: ErrorCode::RefusedStream },
                ..
            } if id.get() == 103
        )),
        "the second request is safe to send elsewhere: {effects:?}"
    );
    assert!(b.open);
    assert_eq!(b.conn.next_wake().0, Some(b.now + 10 * SECOND));
    b.respond(1, &[field(":status", "200")], true);
    assert!(!b.open, "the last promised answer ends the drain");
}

#[test]
fn a_drain_that_drags_on_is_cut_off() {
    let mut b = TestBackend::connect();
    b.complete_handshake();
    b.tell(ask(0, true));
    b.send(&Frame::GoAway {
        last_stream_id: StreamId::new(1),
        error_code: ErrorCode::NoError,
        debug_data: Bytes::new(),
    });
    b.now += 10 * SECOND;
    b.wake(Wake::DrainDeadline);
    assert!(!b.open);
    b.conn.fail_all_routes();
    assert!(matches!(b.told().last(), Some(ServiceEvent::Gone { .. })));
}

#[test]
fn a_malformed_response_becomes_a_bad_gateway() {
    let mut b = TestBackend::connect();
    b.complete_handshake();
    b.tell(ask(0, true));
    b.conn.take_effects();
    b.frames();
    b.respond(1, &[field(":status", "nope")], true);
    let effects = b.conn.take_effects();
    assert!(
        matches!(
            &effects[..],
            [
                Effect::Failure { client: 7, id },
                Effect::Deliver {
                    client: 7,
                    event: ServiceEvent::Head { response, end_stream: true, .. },
                },
                Effect::StreamClosed,
            ] if id.get() == 101 && response.status == 502 && response.fields.is_empty()
        ),
        "{effects:?}"
    );
    assert!(b.frames().contains(&Frame::RstStream {
        stream_id: StreamId::new(1),
        error_code: ErrorCode::Cancel,
    }));
    assert!(b.open, "one bad answer is not the connection's fault");
}

#[test]
fn trailers_that_are_none_abort_the_answer() {
    // Malformed, or well formed but with no end to the response.
    for (name, end_stream) in [(":status", true), ("Upper", true), ("grpc-status", false)] {
        let mut b = TestBackend::connect();
        b.complete_handshake();
        b.tell(ask(0, true));
        b.respond(1, &[field(":status", "200")], false);
        b.conn.take_effects();
        b.frames();
        b.respond(1, &[field(name, "1")], end_stream);
        let effects = b.conn.take_effects();
        assert!(
            matches!(
                &effects[..],
                [
                    Effect::Failure { client: 7, .. },
                    Effect::Deliver {
                        event: ServiceEvent::Reset { code: ErrorCode::InternalError, .. },
                        ..
                    },
                    Effect::StreamClosed,
                ]
            ),
            "{name}: {effects:?}"
        );
        assert!(b.frames().contains(&Frame::RstStream {
            stream_id: StreamId::new(1),
            error_code: ErrorCode::Cancel,
        }));
        assert!(b.open);
    }
    // Those that are some end it.
    let mut b = TestBackend::connect();
    b.complete_handshake();
    b.tell(ask(0, true));
    b.respond(1, &[field(":status", "200")], false);
    b.told();
    b.respond(1, &[field("grpc-status", "0")], true);
    assert!(matches!(&b.told()[..], [ServiceEvent::Trailers { fields, .. }] if fields.len() == 1));
}

#[test]
fn a_preview_is_not_an_answer() {
    let mut b = TestBackend::connect();
    b.complete_handshake();
    b.tell(ask(0, true));
    b.conn.take_effects();
    b.respond(1, &[field(":status", "103")], false);
    assert!(b.conn.take_effects().is_empty(), "the answer is still to come");
    b.respond(1, &[field(":status", "100")], true);
    let told = b.told();
    assert!(
        matches!(
            &told[..],
            [ServiceEvent::Head { response, end_stream: true, .. }] if response.status == 502
        ),
        "{told:?}"
    );
    assert!(b.open);
}

#[test]
fn request_octets_stay_within_the_credit_given() {
    let mut b = TestBackend::connect();
    b.complete_handshake();
    b.settings(vec![(setting_id::INITIAL_WINDOW_SIZE, 40_000)]);
    for i in 0..2 {
        b.tell(ask(i, false));
    }
    b.frames();
    for i in 0..2 {
        b.tell(ToUpstream::Body {
            id: RequestId::new(i),
            data: Bytes::from(vec![0; 50_000]),
            end_stream: true,
        });
    }
    let sent = |frames: &[Frame], id: u32| -> usize {
        frames
            .iter()
            .map(|f| match f {
                Frame::Data { stream_id, data, .. } if stream_id.get() == id => data.len(),
                _ => 0,
            })
            .sum()
    };
    // The stream's window holds the first back, the connection's the second.
    let frames = b.frames();
    assert_eq!(sent(&frames, 1), 40_000);
    assert_eq!(sent(&frames, 3), 65_535 - 40_000);
    b.send(&Frame::WindowUpdate { stream_id: StreamId::connection(), increment: 1_000 });
    let frames = b.frames();
    assert_eq!((sent(&frames, 1), sent(&frames, 3)), (0, 1_000));
}

#[test]
fn an_answer_cut_short_is_reported_against_the_backend() {
    // The connection dies under an answer that had begun.
    let mut b = TestBackend::connect();
    b.complete_handshake();
    b.tell(ask(0, true));
    b.tell(ask(1, true));
    b.respond(1, &[field(":status", "200")], false);
    b.conn.take_effects();
    b.conn.fail_all_routes();
    let effects = b.conn.take_effects();
    let failures: Vec<u32> = effects
        .iter()
        .filter_map(|e| match e {
            Effect::Failure { client: 7, id } => Some(id.get()),
            _ => None,
        })
        .collect();
    assert_eq!(failures, [101], "a connection that died says so itself where no answer had begun");
    assert!(effects.iter().any(|e| matches!(
        e,
        Effect::Deliver { event: ServiceEvent::Reset { code: ErrorCode::InternalError, .. }, .. }
    )));
    assert!(effects
        .iter()
        .any(|e| matches!(e, Effect::Deliver { event: ServiceEvent::Gone { .. }, .. })));

    // A reset by the backend is not.
    let mut b = TestBackend::connect();
    b.complete_handshake();
    b.tell(ask(0, true));
    b.respond(1, &[field(":status", "200")], false);
    b.send(&Frame::RstStream {
        stream_id: StreamId::new(1),
        error_code: ErrorCode::InternalError,
    });
    assert!(!b.conn.take_effects().iter().any(|e| matches!(e, Effect::Failure { .. })));
}

#[test]
fn a_stream_the_backend_broke_is_not_left_hanging() {
    for increment in [0, 0x7fff_ffff] {
        let mut b = TestBackend::connect();
        b.complete_handshake();
        b.settings(vec![(setting_id::MAX_CONCURRENT_STREAMS, 1)]);
        b.tell(ask(0, true));
        b.tell(ask(1, true));
        b.frames();
        b.conn.take_effects();
        b.send(&Frame::WindowUpdate { stream_id: StreamId::new(1), increment });
        let code = if increment == 0 {
            ErrorCode::ProtocolError
        } else {
            ErrorCode::FlowControlError
        };
        let frames = b.frames();
        assert_eq!(
            frames[0],
            Frame::RstStream { stream_id: StreamId::new(1), error_code: code }
        );
        assert!(
            matches!(&frames[1], Frame::Headers { stream_id, .. } if stream_id.get() == 3),
            "the slot goes to the request that waited"
        );
        assert!(matches!(
            &b.told()[..],
            [ServiceEvent::Head { response, end_stream: true, .. }] if response.status == 502
        ));
        assert!(b.open);
    }
}

#[test]
fn a_reset_is_passed_on() {
    let mut b = TestBackend::connect();
    b.complete_handshake();
    b.tell(ask(0, true));
    b.conn.take_effects();
    b.send(&Frame::RstStream {
        stream_id: StreamId::new(1),
        error_code: ErrorCode::RefusedStream,
    });
    assert!(matches!(
        b.told()[..],
        [ServiceEvent::Reset { code: ErrorCode::RefusedStream, .. }]
    ));
    assert_eq!(b.conn.summary().streams_reset, 1);
}

#[test]
fn a_silent_backend_is_probed_and_then_given_up() {
    let mut b =
        TestBackend::connect_to(UpstreamConnection::new().with_probe(5 * SECOND, 5 * SECOND, 0));
    b.now = 0;
    b.complete_handshake();
    assert_eq!(b.conn.next_wake(), (None, Some(5 * SECOND)));
    b.now = 5 * SECOND;
    b.wake(Wake::ProbeTimer);
    assert!(matches!(b.frames()[..], [Frame::Ping { ack: false, .. }]));
    b.now = 10 * SECOND;
    b.wake(Wake::ProbeTimer);
    assert!(!b.open);
    assert!(b.conn.summary().probe_timed_out);
    assert!(b.conn.take_effects().iter().any(|e| matches!(e, Effect::Retire)));
}

#[test]
fn a_fault_is_reported_to_the_backend() {
    let mut b = TestBackend::connect();
    b.complete_handshake();
    b.send(&Frame::WindowUpdate { stream_id: StreamId::connection(), increment: 0 });
    assert!(matches!(
        b.frames()[..],
        [Frame::GoAway { error_code: ErrorCode::ProtocolError, .. }]
    ));
    assert!(!b.open);
    let mut conn = UpstreamConnection::new();
    conn.fail(ConnectionError::with_text(ErrorCode::NoError, "x"));
    assert_eq!(conn.output().len(), 9 + 8 + 1);
}

#[test]
fn a_closed_socket_ends_the_loop() {
    for wake in [
        Wake::ReadClosed,
        Wake::WriteClosed,
        Wake::Abandoned,
        Wake::Received(Bytes::new()),
        Wake::Wrote { n: 0 },
    ] {
        let mut conn = UpstreamConnection::new();
        assert!(matches!(conn.wake(wake, 0), Ok(false)));
    }
}

#[test]
fn what_cannot_be_delivered_is_still_answered() {
    assert!(matches!(
        answer_to_undeliverable(&ask(0, true)),
        Some(Effect::Deliver { client: 7, event: ServiceEvent::Gone { .. } })
    ));
    let cancel = ToUpstream::Cancel { id: RequestId::new(0), code: ErrorCode::Cancel };
    assert!(answer_to_undeliverable(&cancel).is_none());
}

#[test]
fn a_slow_client_stops_a_fast_backend_within_one_window() {
    let tuning = Tuning { stream_window: 100_000, connection_window: 70_000, ..Tuning::default() };
    let mut b = TestBackend::connect_to(UpstreamConnection::with_tuning(tuning));
    b.buf.clear();
    b.settings(vec![]);
    b.tell(ask(0, true));
    b.respond(1, &[field(":status", "200")], false);
    b.frames();
    // A whole window goes through; none of it is credited.
    for _ in 0..7 {
        b.data(1, &[0; 10_000], false);
    }
    assert!(b.open);
    assert!(b.frames().is_empty());
    // The client takes half; the backend may send that much again.
    b.tell(ToUpstream::Released { id: RequestId::new(0), n: 35_000 });
    assert_eq!(
        b.frames(),
        vec![Frame::WindowUpdate { stream_id: StreamId::connection(), increment: 35_000 }]
    );
    for _ in 0..3 {
        b.data(1, &[0; 10_000], false);
    }
    assert!(b.open);
    // One octet past the window is a protocol violation.
    b.data(1, &[0; 5_001], false);
    assert!(!b.open);
    assert!(matches!(
        b.frames()[..],
        [Frame::GoAway { error_code: ErrorCode::FlowControlError, .. }]
    ));
}

#[test]
fn a_cancelled_download_gives_its_credit_back() {
    let tuning = Tuning { stream_window: 100_000, connection_window: 70_000, ..Tuning::default() };
    let mut b = TestBackend::connect_to(UpstreamConnection::with_tuning(tuning));
    b.buf.clear();
    b.settings(vec![]);
    b.tell(ask(0, true));
    b.respond(1, &[field(":status", "200")], false);
    for _ in 0..4 {
        b.data(1, &[0; 10_000], false);
    }
    b.frames();
    b.tell(ToUpstream::Cancel { id: RequestId::new(0), code: ErrorCode::Cancel });
    let frames = b.frames();
    assert!(frames.contains(&Frame::RstStream {
        stream_id: StreamId::new(1),
        error_code: ErrorCode::Cancel,
    }));
    assert!(frames.contains(&Frame::WindowUpdate {
        stream_id: StreamId::connection(),
        increment: 40_000,
    }));
    let effects = b.conn.take_effects();
    assert!(effects.iter().any(|e| matches!(e, Effect::Unbuffered(40_000))));
}

/// A connection of 70 000 octets with one answer of 40 000, all of it arrived.
fn ended_download() -> TestBackend {
    let tuning = Tuning { stream_window: 100_000, connection_window: 70_000, ..Tuning::default() };
    let mut b = TestBackend::connect_to(UpstreamConnection::with_tuning(tuning));
    b.buf.clear();
    b.settings(vec![]);
    b.tell(ask(0, true));
    b.respond(1, &[field(":status", "200")], false);
    for i in 0..4 {
        b.data(1, &[0; 10_000], i == 3);
    }
    b.frames();
    let effects = b.conn.take_effects();
    assert!(effects.iter().any(|e| matches!(e, Effect::StreamClosed)));
    assert!(!effects.iter().any(|e| matches!(e, Effect::Unbuffered(_))), "all of it is held");
    b
}

#[test]
fn an_ended_response_is_credited_as_the_client_takes_it() {
    let mut b = ended_download();
    b.tell(ToUpstream::Released { id: RequestId::new(0), n: 4_000 });
    assert!(matches!(b.conn.take_effects()[..], [Effect::Unbuffered(4_000)]));
    b.tell(ToUpstream::Released { id: RequestId::new(0), n: 36_000 });
    assert!(matches!(b.conn.take_effects()[..], [Effect::Unbuffered(36_000)]));
    assert_eq!(
        b.frames(),
        vec![Frame::WindowUpdate { stream_id: StreamId::connection(), increment: 40_000 }]
    );
    // Nothing is left to confirm.
    b.tell(ToUpstream::Released { id: RequestId::new(0), n: 1 });
    assert!(b.conn.take_effects().is_empty());
}

#[test]
fn an_ended_response_still_counts_against_the_window() {
    let mut b = ended_download();
    b.tell(ask(1, true));
    b.respond(3, &[field(":status", "200")], false);
    for _ in 0..3 {
        b.data(3, &[0; 10_000], false);
    }
    assert!(b.open, "both together fill one window");
    b.data(3, &[0; 1], false);
    assert!(!b.open);
    assert!(b
        .frames()
        .iter()
        .any(|f| matches!(f, Frame::GoAway { error_code: ErrorCode::FlowControlError, .. })));
}

#[test]
fn an_ended_response_nobody_will_take_is_credited_at_once() {
    let mut b = ended_download();
    b.tell(ToUpstream::Released { id: RequestId::new(0), n: 1_000 });
    b.tell(ToUpstream::Cancel { id: RequestId::new(0), code: ErrorCode::Cancel });
    let effects = b.conn.take_effects();
    assert!(matches!(effects[..], [Effect::Unbuffered(1_000), Effect::Unbuffered(39_000)]));
    assert_eq!(
        b.frames(),
        vec![Frame::WindowUpdate { stream_id: StreamId::connection(), increment: 40_000 }],
        "the stream is over: there is nothing to reset"
    );

    let mut b = ended_download();
    b.conn.fail_all_routes();
    assert!(matches!(b.conn.take_effects()[..], [Effect::Unbuffered(40_000)]));
}

#[test]
fn a_client_that_left_holds_nothing_and_stops_nothing() {
    let mut b = ended_download();
    b.tell(ask(1, true));
    b.respond(3, &[field(":status", "200")], false);
    b.data(3, &[0; 1_000], false);
    b.frames();
    b.conn.take_effects();
    // Somebody else leaving changes nothing.
    b.tell(ToUpstream::Left { client: 8 });
    assert!(b.conn.take_effects().is_empty());
    b.tell(ToUpstream::Left { client: 7 });
    assert!(matches!(b.conn.take_effects()[..], [Effect::Unbuffered(40_000)]));
    assert_eq!(
        b.frames(),
        vec![Frame::WindowUpdate { stream_id: StreamId::connection(), increment: 40_000 }],
        "what had ended is credited, and nothing is reset"
    );
    // The other answer runs on to its end, and is given up then.
    b.data(3, &[0; 500], true);
    b.conn.take_effects();
    b.tell(ToUpstream::Left { client: 7 });
    assert!(matches!(b.conn.take_effects()[..], [Effect::Unbuffered(1_500)]));
}
