//! One HTTP/2 server connection as a state machine over octets.
//!
//! The engine owns the SETTINGS handshake, the frame loop that demuxes inbound
//! frames onto a table of live streams, and the scheduler that interleaves their
//! responses under two levels of flow control. It performs no I/O: octets that
//! arrived go in through [`Connection::feed`], octets to write come out through
//! [`Connection::take_output`], and requests to answer through
//! [`Connection::take_requests`].
//!
//! When every window is exhausted, [`Connection::pump_outbound`] writes nothing;
//! the peer's WINDOW_UPDATE is what makes the next call write again.

use crate::conn::{
    default_settings, fault, ConnectionError, ErrorCode, Fault, Settings, StreamError,
    MAX_CONCURRENT_STREAMS, MAX_HEADER_LIST_SIZE,
};
use crate::conn::laws::{lemma_handles_keeps, lemma_resets_pending, lemma_serves_ends};
use crate::conn::{advertised, settings_applied};
use crate::flow::{
    RecvWindow, Window, CONNECTION_WINDOW, CONNECTION_WINDOW_BOOTSTRAP, MAX_WINDOW_SIZE,
};
use crate::frame::{encoded, taken, Decoded, DecodedModel, Frame, FrameCodec, FrameModel, FrameType};
use crate::hpack::{
    headers_view, DecoderModel, DynModel, EncoderModel, Header, HeaderModel, HpackDecoder,
    HpackEncoder, HpackError, HpackFault,
};
use crate::octets::{as_slice, as_slice_mut, buffered, from_static, octets, put_slice, same_octets};
use crate::sched::{
    budget, lemma_marked_dom, marked, rebuild_ring, remove_from_ring, ring_without, still_live,
    take_from_queue, taken_front, visit_budget,
};
use crate::service::{
    are_trailers, before_query, decimal_octets, declared_length, filler, filler_octets, is_request,
    is_text, plain, request_of, response_headers, sends_no_body, sized_body_request,
    sized_request, text_octets, validate_trailers, RequestHead, RequestModel, Response,
    ResponseModel,
};
use crate::stream::{
    chunks, total_len, Lookup, OpenRejection, Rejection, StreamEvent, StreamId, StreamModel,
    StreamTable, TableModel,
};
use crate::text::{decimal, push_decimal};
use bytes::{Bytes, BytesMut};
use std::collections::VecDeque;
use vstd::prelude::*;
use vstd::string::StringExecFns;
use vstd::utf8::encode_utf8;

verus! {

broadcast use vstd::std_specs::hash::group_hash_axioms;

/// The client connection preface (RFC 9113 §3.4): a client opens every HTTP/2
/// connection by sending these 24 octets.
pub const PREFACE: &'static str = "PRI * HTTP/2.0\r\n\r\nSM\r\n\r\n";

/// The largest compressed header block reassembled across HEADERS and
/// CONTINUATION. The decoded-size limit applies only once a block is complete,
/// so without this a block that never ends could grow without bound.
pub const MAX_HEADER_BLOCK_BYTES: usize = 65_536;

/// What a finished connection did.
#[derive(Clone, Copy, PartialEq, Eq, Debug, Default, Structural)]
pub struct ConnectionSummary {
    /// Whether the preface and SETTINGS exchange completed (§3.4).
    pub handshake_completed: bool,
    /// Frames successfully decoded from the peer.
    pub frames_received: u64,
    /// Complete header blocks decoded through HPACK.
    pub header_blocks_decoded: u64,
    /// Streams the peer opened over this connection's lifetime.
    pub streams_opened: u64,
    /// Streams that ended in a RST_STREAM, in either direction.
    pub streams_reset: u64,
    /// The most streams live at once.
    pub peak_concurrent_streams: u32,
    /// DATA payload octets written to the peer.
    pub data_bytes_sent: u64,
    /// Times the scheduler had queued octets but no window to send them in.
    pub flow_control_stalls: u64,
}

/// Nothing has happened yet.
pub open spec fn empty_summary() -> ConnectionSummary {
    ConnectionSummary {
        handshake_completed: false,
        frames_received: 0,
        header_blocks_decoded: 0,
        streams_opened: 0,
        streams_reset: 0,
        peak_concurrent_streams: 0,
        data_bytes_sent: 0,
        flow_control_stalls: 0,
    }
}

/// A counter with `k` added, held at the largest value it can have.
pub open spec fn counted(n: u64, k: int) -> u64 {
    if n + k > u64::MAX {
        u64::MAX
    } else {
        (n + k) as u64
    }
}

/// The body of a response.
#[derive(Debug)]
pub enum Body {
    /// No body: END_STREAM rides the HEADERS.
    Empty,
    /// These octets.
    Fixed(Bytes),
    /// The request body, mirrored back as it arrives.
    Echo,
}

/// What a body says.
pub enum BodyModel {
    Empty,
    Fixed(Seq<u8>),
    Echo,
}

impl View for Body {
    type V = BodyModel;

    open spec fn view(&self) -> BodyModel {
        match self {
            Body::Empty => BodyModel::Empty,
            Body::Fixed(b) => BodyModel::Fixed(octets(*b)),
            Body::Echo => BodyModel::Echo,
        }
    }
}

/// A validated request waiting to be answered.
#[derive(Debug)]
pub struct Dispatch {
    pub id: StreamId,
    pub head: RequestHead,
    pub end_stream: bool,
}

/// What a waiting request says.
#[verifier::ext_equal]
pub struct DispatchModel {
    pub id: u32,
    pub head: RequestModel,
    pub end_stream: bool,
}

impl View for Dispatch {
    type V = DispatchModel;

    open spec fn view(&self) -> DispatchModel {
        DispatchModel { id: self.id.value(), head: self.head@, end_stream: self.end_stream }
    }
}

/// The waiting requests of a list.
pub open spec fn dispatches_view(list: Seq<Dispatch>) -> Seq<DispatchModel> {
    Seq::new(list.len(), |i: int| list[i]@)
}

/// The stream errors of a list, as id and code.
pub open spec fn resets_view(list: Seq<StreamError>) -> Seq<(u32, ErrorCode)> {
    Seq::new(list.len(), |i: int| (list[i].stream.value(), list[i].code))
}

/// Whether the frame loop keeps going after a frame.
#[derive(Clone, Copy, PartialEq, Eq, Debug, Structural)]
pub enum Next {
    Continue,
    Close,
}

/// What one round-robin visit did, which decides where the stream sits in the
/// ring for the next lap.
#[derive(Clone, Copy, PartialEq, Eq, Debug, Structural)]
pub enum Visit {
    /// Octets queued, no window to send them in. Keeps its place at the front.
    Stalled,
    /// Wrote a frame; `more` says whether anything is still queued.
    Wrote { more: bool },
    /// Nothing left to send, or the stream is gone. Leaves the ring.
    Finished,
}

/// What the octets read so far say about the client's preface.
#[derive(Clone, Copy, PartialEq, Eq, Debug, Structural)]
pub enum Preface {
    /// Fewer than 24 octets have arrived.
    Incomplete,
    /// The peer does not speak HTTP/2.
    Mismatch,
    /// The preface was there and has been consumed.
    Accepted,
}

// ---------------------------------------------------------------------------
// The model: what a connection is, and what each step does to it
// ---------------------------------------------------------------------------

/// What a connection holds.
#[verifier::ext_equal]
pub struct ConnModel {
    /// Octets read and not decoded yet.
    pub input: Seq<u8>,
    /// Octets to write to the peer.
    pub output: Seq<u8>,
    /// The largest frame we accept.
    pub max_frame_size: u32,
    /// What we advertised.
    pub local: Settings,
    /// The peer's settings as applied.
    pub peer: Settings,
    /// The stream whose header block is still open (§4.3).
    pub open_block: Option<u32>,
    /// The END_STREAM flag of the HEADERS that opened it.
    pub open_end: bool,
    /// The part of the header block that has arrived.
    pub header_block: Seq<u8>,
    pub dec: DecoderModel,
    pub enc: EncoderModel,
    pub streams: TableModel,
    /// Connection-level credit the peer gave us.
    pub send_window: Window,
    /// Connection-level credit we gave the peer.
    pub recv_window: RecvWindow,
    /// Streams with something to send, in round-robin order.
    pub ready: Seq<u32>,
    /// RST_STREAMs owed to the peer.
    pub pending_reset: Seq<(u32, ErrorCode)>,
    /// Requests waiting to be answered.
    pub requests: Seq<DispatchModel>,
    pub summary: ConnectionSummary,
}

/// A connection after a step, and the fault that ends it, if there is one.
pub type Outcome = (ConnModel, Option<Fault>);

/// What the built-in responder answers a request with: as many octets as the
/// path asks for, or the request's own body, or the default where the request
/// has none.
pub open spec fn built_in(head: RequestModel, end_stream: bool, default_body: nat) -> (
    ResponseModel,
    BodyModel,
) {
    match sized_request(before_query(head.path)) {
        Some(n) => (
            ResponseModel {
                status: 200,
                fields: seq![plain("content-length"@, text_octets(decimal(n)))],
            },
            BodyModel::Fixed(filler(n)),
        ),
        None => (
            ResponseModel { status: 200, fields: Seq::empty() },
            if sends_no_body(head, end_stream) {
                BodyModel::Fixed(filler(default_body))
            } else {
                BodyModel::Echo
            },
        ),
    }
}

/// What the built-in responder answers a request with.
pub fn built_in_response(head: &RequestHead, end_stream: bool, default_body: usize) -> (r: (
    Response,
    Body,
))
    ensures
        (r.0@, r.1@) == built_in(head@, end_stream, default_body as nat),
{
    if let Some(n) = sized_body_request(head.path_only()) {
        let mut fields: Vec<Header> = Vec::new();
        fields.push(Header::new(from_static("content-length"), decimal_octets(n as u64)));
        assert(headers_view(fields@) =~= seq![
            plain("content-length"@, text_octets(decimal(n as nat))),
        ]);
        return (Response { status: 200, fields }, Body::Fixed(filler_octets(n)));
    }
    let bodyless = end_stream || is_text(as_slice(&head.method), "GET") || is_text(
        as_slice(&head.method),
        "HEAD",
    );
    if bodyless {
        (Response::status(200), Body::Fixed(filler_octets(default_body)))
    } else {
        (Response::status(200), Body::Echo)
    }
}

/// A decimal with text around it.
pub open spec fn numbered(before: Seq<char>, n: u32, after: Seq<char>) -> Seq<char> {
    before + decimal(n as nat) + after
}

impl ConnModel {
    /// A connection that advertises `local`, before anything happened.
    pub open spec fn initial(local: Settings) -> ConnModel {
        let d = default_settings();
        ConnModel {
            input: Seq::empty(),
            output: Seq::empty(),
            max_frame_size: local.max_frame_size,
            local,
            peer: d,
            open_block: None,
            open_end: false,
            header_block: Seq::empty(),
            dec: DecoderModel {
                table: DynModel { entries: Seq::empty(), max_size: local.header_table_size as nat },
                capacity: local.header_table_size as nat,
                limit: match local.max_header_list_size {
                    Some(n) => Some(n as usize),
                    None => None,
                },
            },
            enc: EncoderModel {
                table: DynModel { entries: Seq::empty(), max_size: d.header_table_size as nat },
                pending: None,
                huffman: true,
            },
            streams: TableModel {
                live: Map::empty(),
                highest_peer: 0,
                highest_local: 0,
                max_concurrent: match local.max_concurrent_streams {
                    Some(n) => n,
                    None => MAX_CONCURRENT_STREAMS,
                },
                initial_send_window: d.initial_window_size as i32,
                initial_recv_window: local.initial_window_size as i32,
                peak: 0,
                opened_total: 0,
            },
            send_window: Window(d.initial_window_size as i32),
            recv_window: RecvWindow {
                window: Window(CONNECTION_WINDOW),
                unreleased: 0,
                initial: CONNECTION_WINDOW,
            },
            ready: Seq::empty(),
            pending_reset: Seq::empty(),
            requests: Seq::empty(),
            summary: empty_summary(),
        }
    }

    /// A frame is queued for the peer. One that cannot be written is an
    /// internal fault.
    #[verifier::opaque]
    pub open spec fn sends(self, f: FrameModel) -> Outcome {
        match encoded(f) {
            Ok(octets) => (ConnModel { output: self.output + octets, ..self }, None),
            Err(e) => (self, Some(fault(ErrorCode::InternalError, e.text()))),
        }
    }

    /// A stream leaves the table and the ring.
    pub open spec fn without(self, id: u32) -> ConnModel {
        ConnModel {
            streams: self.streams.without(id),
            ready: ring_without(self.ready, id),
            ..self
        }
    }

    /// One stream is aborted, leaving the connection up (§5.4.2).
    pub open spec fn resets(self, id: u32, code: ErrorCode) -> Outcome {
        let m = self.without(id);
        ConnModel {
            summary: ConnectionSummary {
                streams_reset: counted(m.summary.streams_reset, 1),
                ..m.summary
            },
            ..m
        }.sends(FrameModel::RstStream { stream_id: id, error_code: code })
    }

    /// An event goes through a stream's state machine. A stream that finishes
    /// leaves the ring; an event on a stream that was never opened is a
    /// connection fault; any other illegal event costs the stream a reset.
    #[verifier::opaque]
    pub open spec fn advances(self, id: u32, event: StreamEvent, what: Seq<char>) -> Outcome {
        let (streams, r) = self.streams.applies(id, event);
        let m = ConnModel { streams, ..self };
        match r {
            Ok(state) => (
                if state is Closed {
                    ConnModel { ready: ring_without(m.ready, id), ..m }
                } else {
                    m
                },
                None,
            ),
            Err(code) => if code == ErrorCode::ProtocolError {
                (
                    m,
                    Some(
                        fault(
                            ErrorCode::ProtocolError,
                            what + numbered(" on stream "@, id, ", which is idle"@),
                        ),
                    ),
                )
            } else {
                (
                    ConnModel {
                        pending_reset: m.pending_reset.push((id, code)),
                        ..m.without(id)
                    },
                    None,
                )
            },
        }
    }

    /// A stream with work joins the ring, unless it is in it already.
    pub open spec fn enqueues(self, id: u32) -> ConnModel {
        if self.streams.live.contains_key(id) {
            let s = self.streams.live[id];
            if s.queued || !s.wants_to_send() {
                self
            } else {
                ConnModel {
                    streams: self.streams.with(id, StreamModel { queued: true, ..s }),
                    ready: self.ready.push(id),
                    ..self
                }
            }
        } else {
            self
        }
    }

    /// The request body contradicts its `content-length` (§8.1.2.6).
    pub open spec fn body_wrong(self, id: u32) -> bool {
        self.streams.live.contains_key(id) && !self.streams.live[id].length_kept()
    }

    /// A response is sent: its HEADERS now, its body through the scheduler.
    #[verifier::opaque]
    pub open spec fn answers(self, id: u32, response: ResponseModel, body: BodyModel) -> Outcome {
        let fixed = match body {
            BodyModel::Fixed(b) => b,
            _ => Seq::empty(),
        };
        let end_stream = fixed.len() == 0 && !(body is Echo);
        let (enc, block) = self.enc.encoded(response_headers(response));
        let m = ConnModel { enc, ..self };
        let (m, f) = m.sends(
            FrameModel::Headers { stream_id: id, block, end_stream, end_headers: true },
        );
        if f is Some {
            (m, f)
        } else {
            let (m, f) = m.advances(id, StreamEvent::SendHeaders { end_stream }, "response"@);
            if f is Some || !m.streams.live.contains_key(id) {
                (m, f)
            } else {
                let s = m.streams.live[id];
                if body is Echo {
                    (
                        ConnModel {
                            streams: m.streams.with(id, StreamModel { echoing: true, ..s }),
                            ..m
                        },
                        None,
                    )
                } else if fixed.len() > 0 {
                    (
                        ConnModel {
                            streams: m.streams.with(
                                id,
                                StreamModel {
                                    send_queue: s.send_queue.push(fixed),
                                    send_end_stream: true,
                                    ..s
                                },
                            ),
                            ..m
                        }.enqueues(id),
                        None,
                    )
                } else {
                    (m, None)
                }
            }
        }
    }

    /// A peer's HEADERS opens a stream, or why the connection or the stream
    /// ends instead. `Ok(true)` when it is open.
    #[verifier::opaque]
    pub open spec fn opens(self, id: u32, end_stream: bool, what: Seq<char>) -> (
        ConnModel,
        Result<bool, Fault>,
    ) {
        let (streams, rejection) = self.streams.peer_opens(id);
        let m = ConnModel { streams, ..self };
        match rejection {
            Some(Rejection::Protocol(why)) => (
                m,
                Err(fault(ErrorCode::ProtocolError, numbered("stream "@, id, ": "@) + why)),
            ),
            Some(Rejection::Refused) => {
                let (m, f) = m.resets(id, ErrorCode::RefusedStream);
                (
                    m,
                    match f {
                        Some(f) => Err(f),
                        None => Ok(false),
                    },
                )
            },
            None => {
                let (m, f) = m.advances(id, StreamEvent::RecvHeaders { end_stream }, what);
                (
                    m,
                    match f {
                        Some(f) => Err(f),
                        None => Ok(true),
                    },
                )
            },
        }
    }

    /// A header list too large is answered with a bare 431 (§10.5.1), unless the
    /// request had ended and the state machine has the only say.
    #[verifier::opaque]
    pub open spec fn rejects(self, id: u32, status: u16) -> Outcome {
        let (m, r) = if !self.streams.live.contains_key(id) {
            self.opens(id, true, "oversized request"@)
        } else if self.streams.live[id].state.remote_open() {
            (self, Ok(true))
        } else {
            let (m, f) = self.advances(
                id,
                StreamEvent::RecvHeaders { end_stream: true },
                "oversized request"@,
            );
            (
                m,
                match f {
                    Some(f) => Err(f),
                    None => Ok(false),
                },
            )
        };
        match r {
            Err(f) => (m, Some(f)),
            Ok(false) => (m, None),
            Ok(true) => m.answers(
                id,
                ResponseModel { status, fields: Seq::empty() },
                BodyModel::Empty,
            ),
        }
    }

    /// A second field section on a live stream is a trailer section: it must
    /// end the stream, be well formed, and agree with `content-length`. It ends
    /// a mirrored body as an ending DATA does. On a request that has already
    /// ended it is nothing of the kind, and the state machine has the only say.
    #[verifier::opaque]
    pub open spec fn takes_trailers(
        self,
        id: u32,
        fields: Seq<HeaderModel>,
        end_stream: bool,
    ) -> Outcome {
        if self.streams.live[id].state.remote_open() && (!end_stream || !are_trailers(fields)
            || self.body_wrong(id)) {
            self.resets(id, ErrorCode::ProtocolError)
        } else {
            let (m, f) = self.advances(id, StreamEvent::RecvHeaders { end_stream }, "trailers"@);
            if f is Some {
                (m, f)
            } else {
                (m.mirrors(id, Seq::empty(), end_stream), None)
            }
        }
    }

    /// A complete field section arrived. A request is validated and handed out
    /// to be answered; one that is malformed costs its stream only.
    #[verifier::opaque]
    pub open spec fn takes_request(
        self,
        id: u32,
        fields: Seq<HeaderModel>,
        end_stream: bool,
    ) -> Outcome {
        if self.streams.live.contains_key(id) {
            self.takes_trailers(id, fields, end_stream)
        } else {
            let (m, r) = self.opens(id, end_stream, "request"@);
            match r {
                Err(f) => (m, Some(f)),
                Ok(false) => (m, None),
                Ok(true) => if !is_request(fields) {
                    m.resets(id, ErrorCode::ProtocolError)
                } else {
                    let request = request_of(fields);
                    match declared_length(request) {
                        Some(Err(code)) => m.resets(id, code),
                        declared => {
                            let m = match declared {
                                Some(Ok(n)) => if m.streams.live.contains_key(id) {
                                    ConnModel {
                                        streams: m.streams.with(
                                            id,
                                            StreamModel {
                                                content_length: Some(n),
                                                ..m.streams.live[id]
                                            },
                                        ),
                                        ..m
                                    }
                                } else {
                                    m
                                },
                                _ => m,
                            };
                            if end_stream && m.body_wrong(id) {
                                m.resets(id, ErrorCode::ProtocolError)
                            } else {
                                (
                                    ConnModel {
                                        requests: m.requests.push(
                                            DispatchModel { id, head: request, end_stream },
                                        ),
                                        ..m
                                    },
                                    None,
                                )
                            }
                        },
                    }
                },
            }
        }
    }

    /// One fragment of a header block. The block is decoded once END_HEADERS
    /// arrives, as a single unit however many frames carried it.
    #[verifier::opaque]
    pub open spec fn takes_fragment(self, id: u32, fragment: Seq<u8>, end_headers: bool) -> Outcome {
        if self.header_block.len() + fragment.len() > MAX_HEADER_BLOCK_BYTES {
            (
                ConnModel { header_block: Seq::empty(), ..self },
                Some(
                    fault(
                        ErrorCode::EnhanceYourCalm,
                        "header block exceeds 65536 octets before END_HEADERS"@,
                    ),
                ),
            )
        } else if !end_headers {
            (ConnModel { header_block: self.header_block + fragment, ..self }, None)
        } else {
            let (dec, r) = self.dec.decoded(self.header_block + fragment);
            let m = ConnModel { dec, header_block: Seq::empty(), ..self };
            let counted_block = ConnModel {
                summary: ConnectionSummary {
                    header_blocks_decoded: counted(m.summary.header_blocks_decoded, 1),
                    ..m.summary
                },
                ..m
            };
            match r {
                Ok(fields) => counted_block.takes_request(id, fields, m.open_end),
                Err(HpackFault::HeaderListTooLarge { .. }) => counted_block.rejects(id, 431),
                Err(e) => (m, Some(e.as_fault())),
            }
        }
    }

    /// Credit goes back to the peer where enough has accumulated.
    #[verifier::opaque]
    pub open spec fn releases_conn(self, len: u32) -> Outcome {
        let (recv_window, due) = self.recv_window.released(len);
        let m = ConnModel { recv_window, ..self };
        match due {
            Some(increment) => m.sends(FrameModel::WindowUpdate { stream_id: 0, increment }),
            None => (m, None),
        }
    }

    /// A stream's own credit goes back to the peer.
    #[verifier::opaque]
    pub open spec fn releases_stream(self, id: u32, len: u32) -> Outcome {
        if !self.streams.live.contains_key(id) {
            (self, None)
        } else {
            let s = self.streams.live[id];
            let (recv_window, due) = s.recv_window.released(len);
            let m = ConnModel {
                streams: self.streams.with(id, StreamModel { recv_window, ..s }),
                ..self
            };
            match due {
                Some(increment) => m.sends(FrameModel::WindowUpdate { stream_id: id, increment }),
                None => (m, None),
            }
        }
    }

    /// A mirrored stream's DATA is queued to go back.
    #[verifier::opaque]
    pub open spec fn mirrors(self, id: u32, data: Seq<u8>, end_stream: bool) -> ConnModel {
        if self.streams.live.contains_key(id) && self.streams.live[id].echoing {
            let s = self.streams.live[id];
            ConnModel {
                streams: self.streams.with(
                    id,
                    StreamModel {
                        send_queue: if data.len() > 0 {
                            s.send_queue.push(data)
                        } else {
                            s.send_queue
                        },
                        send_end_stream: s.send_end_stream || end_stream,
                        ..s
                    },
                ),
                ..self
            }.enqueues(id)
        } else {
            self
        }
    }

    /// Inbound DATA. The connection window is debited before the stream is
    /// looked up: octets for a stream already closed were still sent.
    #[verifier::opaque]
    pub open spec fn takes_data(self, id: u32, data: Seq<u8>, end_stream: bool) -> Outcome {
        let len = data.len() as u32;
        if len > self.recv_window.window.0 {
            (
                self,
                Some(
                    fault(
                        ErrorCode::FlowControlError,
                        "peer exceeded the connection flow-control window"@,
                    ),
                ),
            )
        } else {
            let m = ConnModel {
                recv_window: RecvWindow {
                    window: Window((self.recv_window.window.0 - len) as i32),
                    ..self.recv_window
                },
                ..self
            };
            let (m, f) = m.releases_conn(len);
            if f is Some {
                (m, f)
            } else if !m.streams.live.contains_key(id) {
                if m.streams.seen(id) {
                    m.resets(id, ErrorCode::StreamClosed)
                } else {
                    (
                        m,
                        Some(
                            fault(
                                ErrorCode::ProtocolError,
                                numbered("DATA on stream "@, id, ", which was never opened"@),
                            ),
                        ),
                    )
                }
            } else {
                m.takes_live_data(id, data, end_stream)
            }
        }
    }

    /// Inbound DATA for a live stream, the connection window seen to.
    #[verifier::opaque]
    pub open spec fn takes_live_data(self, id: u32, data: Seq<u8>, end_stream: bool) -> Outcome {
        let len = data.len() as u32;
        let s = self.streams.live[id];
        let s = StreamModel { data_received: counted(s.data_received, len as int), ..s };
        if len > s.recv_window.window.0 {
            ConnModel { streams: self.streams.with(id, s), ..self }.resets(
                id,
                ErrorCode::FlowControlError,
            )
        } else {
            let s = StreamModel {
                recv_window: RecvWindow {
                    window: Window((s.recv_window.window.0 - len) as i32),
                    ..s.recv_window
                },
                ..s
            };
            let m = ConnModel { streams: self.streams.with(id, s), ..self };
            if end_stream && s.state.remote_open() && m.body_wrong(id) {
                m.resets(id, ErrorCode::ProtocolError)
            } else {
                let (m, f) = m.advances(id, StreamEvent::RecvData { end_stream }, "data"@);
                if f is Some {
                    (m, f)
                } else {
                    m.mirrors(id, data, end_stream).releases_stream(id, len)
                }
            }
        }
    }

    /// The peer abandoned a stream.
    #[verifier::opaque]
    pub open spec fn takes_reset(self, id: u32) -> Outcome {
        if self.streams.live.contains_key(id) {
            let m = self.without(id);
            (
                ConnModel {
                    summary: ConnectionSummary {
                        streams_reset: counted(m.summary.streams_reset, 1),
                        ..m.summary
                    },
                    ..m
                },
                None,
            )
        } else if self.streams.seen(id) {
            (self, None)
        } else {
            (
                self,
                Some(
                    fault(
                        ErrorCode::ProtocolError,
                        numbered("RST_STREAM on stream "@, id, ", which was never opened"@),
                    ),
                ),
            )
        }
    }

    /// Credit for a send window (§6.9). A zero increment and an overflow cost
    /// the stream they are addressed to, or the connection on stream 0.
    #[verifier::opaque]
    pub open spec fn takes_credit(self, id: u32, increment: u32) -> Outcome {
        if increment == 0 {
            if id == 0 {
                (
                    self,
                    Some(
                        fault(
                            ErrorCode::ProtocolError,
                            "WINDOW_UPDATE with a zero increment on stream 0"@,
                        ),
                    ),
                )
            } else {
                self.resets(id, ErrorCode::ProtocolError)
            }
        } else if id == 0 {
            if self.send_window.0 + increment > MAX_WINDOW_SIZE {
                (
                    self,
                    Some(
                        fault(
                            ErrorCode::FlowControlError,
                            "WINDOW_UPDATE overflows the connection window"@,
                        ),
                    ),
                )
            } else {
                (
                    ConnModel {
                        send_window: Window((self.send_window.0 + increment) as i32),
                        ..self
                    },
                    None,
                )
            }
        } else if !self.streams.live.contains_key(id) {
            if self.streams.seen(id) {
                (self, None)
            } else {
                (
                    self,
                    Some(
                        fault(
                            ErrorCode::ProtocolError,
                            numbered("WINDOW_UPDATE on stream "@, id, ", which was never opened"@),
                        ),
                    ),
                )
            }
        } else {
            let s = self.streams.live[id];
            if s.send_window.0 + increment > MAX_WINDOW_SIZE {
                self.resets(id, ErrorCode::FlowControlError)
            } else {
                (
                    ConnModel {
                        streams: self.streams.with(
                            id,
                            StreamModel {
                                send_window: Window((s.send_window.0 + increment) as i32),
                                ..s
                            },
                        ),
                        ..self
                    }.enqueues(id),
                    None,
                )
            }
        }
    }

    /// The peer's SETTINGS: applied, obeyed by the encoder, fanned out to the
    /// stream windows by the difference, and acknowledged.
    #[verifier::opaque]
    pub open spec fn takes_settings(self, params: Seq<(u16, u32)>) -> Outcome {
        let (peer, f) = settings_applied(self.peer, params);
        let m = ConnModel { peer, ..self };
        match f {
            Some(f) => (m, Some(f)),
            None => {
                let m = ConnModel { enc: m.enc.bounded(peer.header_table_size as nat), ..m };
                let delta = peer.initial_window_size - self.peer.initial_window_size;
                let (streams, r) = if delta != 0 {
                    m.streams.window_moved(delta as i32)
                } else {
                    (m.streams, Ok(()))
                };
                let m = ConnModel { streams, ..m };
                match r {
                    Err(code) => (
                        m,
                        Some(
                            fault(
                                code,
                                "INITIAL_WINDOW_SIZE change overflows a stream window"@,
                            ),
                        ),
                    ),
                    Ok(()) => {
                        let (m, f) = m.sends(
                            FrameModel::Settings { ack: true, params: Seq::empty() },
                        );
                        (
                            ConnModel {
                                summary: ConnectionSummary {
                                    handshake_completed: m.summary.handshake_completed || f is None,
                                    ..m.summary
                                },
                                ..m
                            },
                            f,
                        )
                    },
                }
            },
        }
    }

    /// What the sequencing rule of §4.3 says of a frame: once a header block is
    /// open, only its CONTINUATION may follow, and no CONTINUATION may come
    /// without one.
    pub open spec fn sequence_fault(self, f: FrameModel) -> Option<Fault> {
        match self.open_block {
            Some(open) => if f is Continuation && f.stream() == open {
                None
            } else {
                Some(self.interrupted(open, f.kind(), f.stream()))
            },
            None => if f is Continuation {
                Some(
                    fault(
                        ErrorCode::ProtocolError,
                        numbered(
                            "CONTINUATION on stream "@,
                            f.stream(),
                            " with no header block open"@,
                        ),
                    ),
                )
            } else {
                None
            },
        }
    }

    /// The fault of a frame that comes between a HEADERS and its CONTINUATION.
    pub open spec fn interrupted(self, open: u32, kind: FrameType, id: u32) -> Fault {
        fault(
            ErrorCode::ProtocolError,
            numbered("expected CONTINUATION on stream "@, open, ", got "@) + kind.text()
                + numbered(" on stream "@, id, ""@),
        )
    }

    /// What a frame does to the connection, sequencing aside.
    pub open spec fn acts_on(self, f: FrameModel) -> Outcome {
        match f {
            FrameModel::Settings { ack, params } => if ack {
                (self, None)
            } else {
                self.takes_settings(params)
            },
            FrameModel::Ping { data, ack } => if ack {
                (self, None)
            } else {
                self.sends(FrameModel::Ping { data, ack: true })
            },
            FrameModel::GoAway { .. } => (self, None),
            FrameModel::WindowUpdate { stream_id, increment } => self.takes_credit(
                stream_id,
                increment,
            ),
            FrameModel::Headers { stream_id, block, end_stream, end_headers } => ConnModel {
                open_end: if self.open_block is None {
                    end_stream
                } else {
                    self.open_end
                },
                ..self
            }.takes_fragment(stream_id, block, end_headers),
            FrameModel::Continuation { stream_id, block, end_headers } => self.takes_fragment(
                stream_id,
                block,
                end_headers,
            ),
            FrameModel::Data { stream_id, data, end_stream } => self.takes_data(
                stream_id,
                data,
                end_stream,
            ),
            FrameModel::RstStream { stream_id, .. } => self.takes_reset(stream_id),
        }
    }

    /// Which header block is open after a frame.
    pub open spec fn block_after(self, f: FrameModel) -> Option<u32> {
        match f {
            FrameModel::Headers { stream_id, end_headers, .. } => if end_headers {
                None
            } else {
                Some(stream_id)
            },
            FrameModel::Continuation { stream_id, end_headers, .. } => if end_headers {
                None
            } else {
                Some(stream_id)
            },
            _ => self.open_block,
        }
    }

    /// What one decoded frame does: the connection after it, and whether the
    /// loop goes on, or the fault that ends the connection. A GOAWAY closes it
    /// quietly.
    pub open spec fn handles(self, f: FrameModel) -> (ConnModel, Result<Next, Fault>) {
        match self.sequence_fault(f) {
            Some(why) => (self, Err(why)),
            None => {
                let (m, why) = self.acts_on(f);
                match why {
                    Some(why) => (m, Err(why)),
                    None => if f is GoAway {
                        (m, Ok(Next::Close))
                    } else {
                        (ConnModel { open_block: m.block_after(f), ..m }, Ok(Next::Continue))
                    },
                }
            },
        }
    }

    /// One thing taken off the wire.
    pub open spec fn takes(self, d: DecodedModel) -> (ConnModel, Result<Next, Fault>) {
        match d {
            DecodedModel::Ignored { kind, stream_id } => match self.open_block {
                Some(open) => (self, Err(self.interrupted(open, kind, stream_id))),
                None => (self, Ok(Next::Continue)),
            },
            DecodedModel::Frame(f) => ConnModel {
                summary: ConnectionSummary {
                    frames_received: counted(self.summary.frames_received, 1),
                    ..self.summary
                },
                ..self
            }.handles(f),
        }
    }

    /// Every complete frame of the input is acted on, in order, until a request
    /// waits to be answered, or the connection closes or faults.
    pub open spec fn drains(self) -> (ConnModel, Result<Next, Fault>)
        decreases self.input.len(),
    {
        let (r, rest) = taken(self.max_frame_size, self.input);
        let m = ConnModel { input: rest, ..self };
        if self.requests.len() > 0 {
            (self, Ok(Next::Continue))
        } else {
        match r {
            Ok(None) => (m, Ok(Next::Continue)),
            Err(e) => (m, Err(fault(e.scope(), e.text()))),
            Ok(Some(d)) => {
                let (m, r) = m.takes(d);
                if r == Ok::<Next, Fault>(Next::Continue) && m.input.len() < self.input.len() {
                    m.drains()
                } else {
                    (m, r)
                }
            },
        }
        }
    }

    /// Requests are answered by the built-in responder, in order.
    pub open spec fn answers_all(self, list: Seq<DispatchModel>, default_body: nat) -> Outcome
        decreases list.len(),
    {
        if list.len() == 0 {
            (self, None)
        } else {
            let (m, f) = self.answers_all(list.drop_last(), default_body);
            let d = list.last();
            if f is Some {
                (m, f)
            } else {
                let (response, body) = built_in(d.head, d.end_stream, default_body);
                m.answers(d.id, response, body)
            }
        }
    }

    /// One turn of the loop between two reads, with the built-in responder: what
    /// arrived is acted on and answered, in order, and what can be sent is
    /// queued.
    pub open spec fn serves(self, default_body: nat) -> (ConnModel, Result<Next, Fault>)
        decreases self.input.len(), self.requests.len(),
        when self.streams.live.dom().finite()
    {
        let (m, r) = self.drains();
        if r != Ok::<Next, Fault>(Next::Continue) {
            (m, r)
        } else if m.requests.len() == 0 {
            let (m, f) = m.pumps();
            match f {
                Some(f) => (m, Err(f)),
                None => (m, Ok(Next::Continue)),
            }
        } else {
            let (n, f) = ConnModel { requests: Seq::empty(), ..m }.answers_all(
                m.requests,
                default_body,
            );
            proof {
                lemma_serves_ends(self, default_body);
            }
            match f {
                Some(f) => (n, Err(f)),
                None => n.serves(default_body),
            }
        }
    }

    // ---- sending -----------------------------------------------------------

    /// One visit in the round-robin: at most one DATA frame, within the budget.
    #[verifier::opaque]
    pub open spec fn visits(self, id: u32) -> (ConnModel, Result<Visit, Fault>) {
        if !self.streams.live.contains_key(id) {
            (self, Ok(Visit::Finished))
        } else {
            let s = StreamModel { queued: false, ..self.streams.live[id] };
            let most = visit_budget(s.send_window, self.send_window, self.peer.max_frame_size);
            if total_len(s.send_queue) > 0 && most == 0 {
                (ConnModel { streams: self.streams.with(id, s), ..self }, Ok(Visit::Stalled))
            } else {
                let (chunk, send_queue) = taken_front(s.send_queue, most);
                let end_stream = send_queue.len() == 0 && s.send_end_stream;
                let s = StreamModel { send_queue, ..s };
                if chunk.len() == 0 && !end_stream {
                    (ConnModel { streams: self.streams.with(id, s), ..self }, Ok(Visit::Finished))
                } else {
                    let s = StreamModel {
                        send_end_stream: s.send_end_stream && !end_stream,
                        send_window: Window((s.send_window.0 - chunk.len()) as i32),
                        ..s
                    };
                    let m = ConnModel {
                        streams: self.streams.with(id, s),
                        send_window: Window((self.send_window.0 - chunk.len()) as i32),
                        ..self
                    };
                    m.sends_chunk(id, chunk, end_stream)
                }
            }
        }
    }

    /// A DATA frame goes out, its credit already spent, and the stream moves on.
    #[verifier::opaque]
    pub open spec fn sends_chunk(self, id: u32, chunk: Seq<u8>, end_stream: bool) -> (
        ConnModel,
        Result<Visit, Fault>,
    ) {
        let (m, f) = self.sends(FrameModel::Data { stream_id: id, data: chunk, end_stream });
        if let Some(f) = f {
            (m, Err(f))
        } else {
            let m = ConnModel {
                summary: ConnectionSummary {
                    data_bytes_sent: counted(m.summary.data_bytes_sent, chunk.len() as int),
                    ..m.summary
                },
                ..m
            };
            let (m, f) = m.advances(id, StreamEvent::SendData { end_stream }, "response data"@);
            if let Some(f) = f {
                (m, Err(f))
            } else {
                (
                    m,
                    Ok(
                        Visit::Wrote {
                            more: m.streams.live.contains_key(id)
                                && m.streams.live[id].wants_to_send(),
                        },
                    ),
                )
            }
        }
    }
}

/// A lap of the ring part of the way through.
#[verifier::ext_equal]
pub struct LapModel {
    pub conn: ConnModel,
    /// The streams that had no window, in the order they were visited.
    pub stalled: Seq<u32>,
    /// The streams that wrote and have more, in the order they were visited.
    pub served: Seq<u32>,
    pub wrote: bool,
    pub fault: Option<Fault>,
}

/// A lap visits each stream of the ring once, in order.
pub open spec fn lap(m: ConnModel, ids: Seq<u32>) -> LapModel
    decreases ids.len(),
{
    if ids.len() == 0 {
        LapModel {
            conn: m,
            stalled: Seq::empty(),
            served: Seq::empty(),
            wrote: false,
            fault: None,
        }
    } else {
        let l = lap(m, ids.drop_last());
        let id = ids.last();
        if l.fault is Some {
            l
        } else {
            let (conn, r) = l.conn.visits(id);
            match r {
                Err(f) => LapModel { conn, fault: Some(f), ..l },
                Ok(Visit::Stalled) => LapModel { conn, stalled: l.stalled.push(id), ..l },
                Ok(Visit::Finished) => LapModel { conn, ..l },
                Ok(Visit::Wrote { more }) => LapModel {
                    conn,
                    served: if more {
                        l.served.push(id)
                    } else {
                        l.served
                    },
                    wrote: true,
                    ..l
                },
            }
        }
    }
}

/// The streams whose last chunk carries END_STREAM.
pub open spec fn ending(t: TableModel) -> Set<u32> {
    t.live.dom().filter(|id: u32| t.live[id].send_end_stream)
}

impl ConnModel {
    /// What a lap can still use up: connection credit, and streams to end.
    pub open spec fn work_left(self) -> nat {
        self.send_window.spendable() + ending(self.streams).len()
    }

    /// One lap of the ring. Afterwards the ring holds the stalled streams
    /// first, in their order, and the served ones behind them: stalling must
    /// not cost a stream its turn.
    pub open spec fn laps(self) -> LapModel {
        let l = lap(ConnModel { ready: Seq::empty(), ..self }, self.ready);
        if l.fault is Some {
            l
        } else {
            let ring = l.stalled + l.served;
            LapModel {
                conn: ConnModel {
                    streams: marked(l.conn.streams, ring),
                    ready: still_live(l.conn.streams, ring),
                    ..l.conn
                },
                ..l
            }
        }
    }

    /// The RST_STREAMs owed to the peer are sent, newest first.
    pub open spec fn flushes(self) -> Outcome
        decreases self.pending_reset.len(),
    {
        if self.pending_reset.len() == 0 {
            (self, None)
        } else {
            let (id, code) = self.pending_reset.last();
            let m = ConnModel { pending_reset: self.pending_reset.drop_last(), ..self };
            let (m, f) = m.resets(id, code);
            if f is Some || m.pending_reset.len() >= self.pending_reset.len() {
                (m, f)
            } else {
                m.flushes()
            }
        }
    }

    /// As much queued DATA as the two windows allow is written, lap by lap,
    /// until a lap writes nothing.
    pub open spec fn pumps(self) -> Outcome
        decreases self.work_left(),
        when self.streams.live.dom().finite()
    {
        proof {
            lemma_laps_use_work(self);
        }
        if self.ready.len() == 0 {
            self.flushes()
        } else {
            let l = self.laps();
            if l.fault is Some {
                (l.conn, l.fault)
            } else if !l.wrote {
                ConnModel {
                    summary: ConnectionSummary {
                        flow_control_stalls: counted(
                            l.conn.summary.flow_control_stalls,
                            if l.conn.ready.len() > 0 {
                                1
                            } else {
                                0
                            },
                        ),
                        ..l.conn.summary
                    },
                    ..l.conn
                }.flushes()
            } else {
                l.conn.pumps()
            }
        }
    }
}

/// A visit never adds to what is left to do, and one that writes takes from it.
proof fn lemma_visit_uses_work(m: ConnModel, id: u32)
    requires
        m.streams.live.dom().finite(),
    ensures
        m.visits(id).0.streams.live.dom().finite(),
        m.visits(id).0.work_left() <= m.work_left(),
        m.visits(id).1 matches Ok(Visit::Wrote { .. }) ==> m.visits(id).0.work_left()
            < m.work_left(),
{
    reveal(ConnModel::visits);
    reveal(ConnModel::sends_chunk);
    reveal(ConnModel::advances);
    reveal(ConnModel::sends);
    let after = m.visits(id).0;
    let before_ids = ending(m.streams);
    let after_ids = ending(after.streams);
    assert(after_ids.subset_of(before_ids)) by {
        assert forall|x: u32| after_ids.contains(x) implies before_ids.contains(x) by {}
    }
    vstd::set_lib::lemma_len_subset(after_ids, before_ids);
    if m.streams.live.contains_key(id) {
        let s = m.streams.live[id];
        let most = visit_budget(s.send_window, m.send_window, m.peer.max_frame_size);
        let chunk = taken_front(s.send_queue, most).0;
        if m.visits(id).1 matches Ok(Visit::Wrote { .. }) {
            if chunk.len() == 0 {
                assert(before_ids.contains(id));
                assert(!after_ids.contains(id));
                assert(after_ids.subset_of(before_ids.remove(id)));
                vstd::set_lib::lemma_len_subset(after_ids, before_ids.remove(id));
            }
        }
    }
}

proof fn lemma_lap_uses_work(m: ConnModel, ids: Seq<u32>)
    requires
        m.streams.live.dom().finite(),
    ensures
        lap(m, ids).conn.streams.live.dom().finite(),
        lap(m, ids).conn.work_left() <= m.work_left(),
        lap(m, ids).wrote ==> lap(m, ids).conn.work_left() < m.work_left(),
    decreases ids.len(),
{
    if ids.len() > 0 {
        lemma_lap_uses_work(m, ids.drop_last());
        let l = lap(m, ids.drop_last());
        if l.fault is None {
            lemma_visit_uses_work(l.conn, ids.last());
        }
    }
}

/// Marking streams as queued ends none of them.
proof fn lemma_marked_ending(t: TableModel, ring: Seq<u32>)
    ensures
        ending(marked(t, ring)) == ending(t),
        marked(t, ring).live.dom() == t.live.dom(),
    decreases ring.len(),
{
    lemma_marked_dom(t, ring);
    if ring.len() > 0 {
        lemma_marked_ending(t, ring.drop_last());
        assert(ending(marked(t, ring)) =~= ending(marked(t, ring.drop_last())));
    }
}

/// A lap that writes brings the pump closer to its end.
pub proof fn lemma_laps_use_work(m: ConnModel)
    requires
        m.streams.live.dom().finite(),
    ensures
        m.laps().conn.streams.live.dom().finite(),
        m.laps().wrote ==> m.laps().conn.work_left() < m.work_left(),
{
    let start = ConnModel { ready: Seq::empty(), ..m };
    lemma_lap_uses_work(start, m.ready);
    let l = lap(start, m.ready);
    lemma_marked_ending(l.conn.streams, l.stalled + l.served);
}

// ---------------------------------------------------------------------------
// The connection
// ---------------------------------------------------------------------------

/// One HTTP/2 server connection.
pub struct Connection {
    read_buf: BytesMut,
    write_buf: BytesMut,
    codec: FrameCodec,
    /// What we advertised. Our `MAX_FRAME_SIZE` is what bounds the decoder.
    local_settings: Settings,
    /// The peer's settings as applied. Bounds what we may send.
    peer_settings: Settings,
    /// Set while a header block is open: only a CONTINUATION on this stream may
    /// follow (§4.3).
    open_header_block: Option<StreamId>,
    /// The END_STREAM flag of the HEADERS that opened the block.
    open_header_end_stream: bool,
    /// Partial header block, accumulated across CONTINUATION frames.
    header_block: BytesMut,
    /// Inbound HPACK state, one per connection: the dynamic table spans every
    /// header block the peer sends.
    hpack_dec: HpackDecoder,
    /// Outbound HPACK state, bounded by the peer's `HEADER_TABLE_SIZE`.
    hpack_enc: HpackEncoder,
    streams: StreamTable,
    /// Connection-level credit the peer gave us: the ceiling on DATA in flight
    /// across all streams.
    conn_send_window: Window,
    /// Connection-level credit we gave the peer.
    conn_recv_window: RecvWindow,
    /// Round-robin ring of streams with something to send.
    ready: VecDeque<u32>,
    /// RST_STREAMs owed to the peer.
    pending_reset: Vec<StreamError>,
    /// Requests waiting to be answered.
    requests: Vec<Dispatch>,
    summary: ConnectionSummary,
}

impl View for Connection {
    type V = ConnModel;

    closed spec fn view(&self) -> ConnModel {
        ConnModel {
            input: buffered(self.read_buf),
            output: buffered(self.write_buf),
            max_frame_size: self.codec.max_frame_size,
            local: self.local_settings,
            peer: self.peer_settings,
            open_block: match self.open_header_block {
                Some(id) => Some(id.value()),
                None => None,
            },
            open_end: self.open_header_end_stream,
            header_block: buffered(self.header_block),
            dec: self.hpack_dec@,
            enc: self.hpack_enc@,
            streams: self.streams@,
            send_window: self.conn_send_window,
            recv_window: self.conn_recv_window,
            ready: self.ready@,
            pending_reset: resets_view(self.pending_reset@),
            requests: dispatches_view(self.requests@),
            summary: self.summary,
        }
    }
}

/// A step ended as expected.
pub open spec fn ends_as(expected: Outcome, m: ConnModel, r: Result<(), ConnectionError>) -> bool {
    &&& m == expected.0
    &&& match r {
        Ok(()) => expected.1 is None,
        Err(e) => expected.1 == Some(e@),
    }
}

/// A number with text around it.
pub(crate) fn numbered_text(before: &str, n: u32, after: &str) -> (s: String)
    ensures
        s@ == numbered(before@, n, after@),
{
    let mut s = String::from_str(before);
    push_decimal(&mut s, n as u64);
    s.append(after);
    s
}

/// The octets of a text.
pub(crate) fn text_bytes(s: &str) -> (b: Bytes)
    ensures
        octets(b) == encode_utf8(s@),
{
    Bytes::copy_from_slice(s.as_bytes())
}

impl Connection {
    /// The invariant between two calls.
    pub closed spec fn wf(self) -> bool {
        self.hpack_dec.wf() && self.hpack_enc.wf()
    }

    /// A connection advertising the server settings.
    pub fn new() -> (c: Self)
        ensures
            c.wf(),
            c@ == ConnModel::initial(
                (Settings {
                    enable_push: false,
                    max_concurrent_streams: Some(MAX_CONCURRENT_STREAMS),
                    initial_window_size: crate::flow::STREAM_INITIAL_WINDOW as u32,
                    max_header_list_size: Some(MAX_HEADER_LIST_SIZE),
                    ..default_settings()
                }),
            ),
    {
        Self::with_settings(Settings::server())
    }

    /// A connection advertising specific settings.
    pub fn with_settings(local_settings: Settings) -> (c: Self)
        ensures
            c.wf(),
            c@ == ConnModel::initial(local_settings),
    {
        let defaults = Settings::default();
        let limit: Option<usize> = match local_settings.max_header_list_size {
            Some(n) => Some(n as usize),
            None => None,
        };
        let max_concurrent: u32 = match local_settings.max_concurrent_streams {
            Some(n) => n,
            None => MAX_CONCURRENT_STREAMS,
        };
        let c = Connection {
            read_buf: BytesMut::new(),
            write_buf: BytesMut::new(),
            codec: FrameCodec::new(local_settings.max_frame_size),
            local_settings,
            peer_settings: defaults,
            open_header_block: None,
            open_header_end_stream: false,
            header_block: BytesMut::new(),
            hpack_dec: HpackDecoder::new(local_settings.header_table_size as usize, limit),
            hpack_enc: HpackEncoder::new(defaults.header_table_size as usize),
            streams: StreamTable::new(
                max_concurrent,
                defaults.initial_window_size as i32,
                local_settings.initial_window_size as i32,
            ),
            conn_send_window: Window::new(defaults.initial_window_size as i32),
            conn_recv_window: RecvWindow::new(CONNECTION_WINDOW),
            ready: VecDeque::new(),
            pending_reset: Vec::new(),
            requests: Vec::new(),
            summary: ConnectionSummary {
                handshake_completed: false,
                frames_received: 0,
                header_blocks_decoded: 0,
                streams_opened: 0,
                streams_reset: 0,
                peak_concurrent_streams: 0,
                data_bytes_sent: 0,
                flow_control_stalls: 0,
            },
        };
        assert(c@ =~= ConnModel::initial(local_settings));
        c
    }

    /// Queues `frame` for the peer. Failing to encode a frame built here is an
    /// internal error.
    fn write_frame(&mut self, frame: &Frame) -> (r: Result<(), ConnectionError>)
        requires
            old(self).wf(),
        ensures
            final(self).wf(),
            ends_as(old(self)@.sends(frame@), final(self)@, r),
    {
        proof {
            reveal(ConnModel::sends);
        }
        match self.codec.encode(frame, &mut self.write_buf) {
            Ok(()) => Ok(()),
            Err(e) => Err(ConnectionError::new(ErrorCode::InternalError, e.message())),
        }
    }

    /// Aborts one stream, leaving the connection up (§5.4.2).
    fn write_rst_stream(&mut self, stream_id: StreamId, error_code: ErrorCode) -> (r: Result<
        (),
        ConnectionError,
    >)
        requires
            old(self).wf(),
        ensures
            final(self).wf(),
            ends_as(old(self)@.resets(stream_id.value(), error_code), final(self)@, r),
    {
        self.summary.streams_reset = self.summary.streams_reset.saturating_add(1);
        self.streams.retire(stream_id);
        remove_from_ring(&mut self.ready, stream_id.get());
        self.write_frame(&Frame::RstStream { stream_id, error_code })
    }

    /// Drives `event` through the stream's state machine, promoting the one
    /// code that §5.1 scopes to the connection.
    fn apply_stream_event(&mut self, stream_id: StreamId, event: StreamEvent, what: &str) -> (r:
        Result<(), ConnectionError>)
        requires
            old(self).wf(),
        ensures
            final(self).wf(),
            ends_as(old(self)@.advances(stream_id.value(), event, what@), final(self)@, r),
    {
        proof {
            reveal(ConnModel::advances);
        }
        match self.streams.apply(stream_id, event) {
            Ok(state) => {
                if state.is_closed() {
                    remove_from_ring(&mut self.ready, stream_id.get());
                }
                Ok(())
            },
            Err(e) => {
                if e.code == ErrorCode::ProtocolError {
                    let mut text = String::from_str(what);
                    let tail = numbered_text(" on stream ", stream_id.get(), ", which is idle");
                    text.append(tail.as_str());
                    return Err(ConnectionError::new(ErrorCode::ProtocolError, text));
                }
                self.streams.retire(stream_id);
                remove_from_ring(&mut self.ready, stream_id.get());
                let ghost before = self.pending_reset@;
                self.pending_reset.push(e);
                assert(resets_view(self.pending_reset@) =~= resets_view(before).push(
                    (stream_id.value(), e.code),
                ));
                Ok(())
            },
        }
    }

    /// Puts a stream in the round-robin ring if it has work and is not already
    /// there.
    fn enqueue_ready(&mut self, stream_id: StreamId)
        requires
            old(self).wf(),
        ensures
            final(self).wf(),
            final(self)@ == old(self)@.enqueues(stream_id.value()),
    {
        let joins = match self.streams.get_mut(stream_id) {
            None => false,
            Some(stream) => {
                if stream.queued || !stream.has_pending_send() {
                    false
                } else {
                    stream.queued = true;
                    true
                }
            },
        };
        if joins {
            self.ready.push_back(stream_id.get());
        }
        assert(self@ =~= old(self)@.enqueues(stream_id.value()));
    }

    /// Whether the body that arrived contradicts the request's
    /// `content-length`. Asked where the request body ends, and before the
    /// transition that retires the stream.
    fn request_body_error(&mut self, stream_id: StreamId) -> (r: Option<ErrorCode>)
        requires
            old(self).wf(),
        ensures
            final(self).wf(),
            final(self)@ == old(self)@,
            r == (if old(self)@.body_wrong(stream_id.value()) {
                Some(ErrorCode::ProtocolError)
            } else {
                None
            }),
    {
        let r = match self.streams.get_mut(stream_id) {
            None => None,
            Some(stream) => if stream.content_length_matches() {
                None
            } else {
                Some(ErrorCode::ProtocolError)
            },
        };
        assert(self@ =~= old(self)@);
        r
    }

    /// Encodes a response's HEADERS and queues its body for the scheduler.
    pub fn send_response(&mut self, stream_id: StreamId, response: Response, body: Body) -> (r:
        Result<(), ConnectionError>)
        requires
            old(self).wf(),
        ensures
            final(self).wf(),
            ends_as(
                old(self)@.answers(stream_id.value(), response@, body@),
                final(self)@,
                r,
            ),
    {
        proof {
            reveal(ConnModel::answers);
        }
        let headers = response.to_headers();
        let echo = matches!(body, Body::Echo);
        let fixed: Bytes = match body {
            Body::Fixed(b) => b,
            _ => Bytes::new(),
        };
        // END_STREAM rides the HEADERS only when nothing else will follow. An
        // echo has no body yet but may still get one, so it stays open.
        let end_stream = fixed.is_empty() && !echo;
        let mut block = BytesMut::new();
        self.hpack_enc.encode(&headers, &mut block);
        let block = block.freeze();
        assert(octets(block) =~= old(self)@.enc.encoded(response_headers(response@)).1);
        let ghost m0 = self@;
        match self.write_frame(
            &Frame::Headers { stream_id, block, end_stream, end_headers: true },
        ) {
            Ok(()) => {},
            Err(e) => return Err(e),
        }
        match self.apply_stream_event(
            stream_id,
            StreamEvent::SendHeaders { end_stream },
            "response",
        ) {
            Ok(()) => {},
            Err(e) => return Err(e),
        }
        let ghost m1 = self@;
        let queue = match self.streams.get_mut(stream_id) {
            None => false,
            Some(stream) => {
                if echo {
                    stream.echoing = true;
                    false
                } else if !fixed.is_empty() {
                    let ghost before = stream.send_queue@;
                    stream.send_queue.push_back(fixed);
                    assert(chunks(stream.send_queue@) =~= chunks(before).push(octets(fixed)));
                    stream.send_end_stream = true;
                    true
                } else {
                    false
                }
            },
        };
        assert(!queue && !(echo && m1.streams.live.contains_key(stream_id.value())) ==> self@
            =~= m1);
        if queue {
            self.enqueue_ready(stream_id);
        }
        Ok(())
    }

    /// Opens a stream for a peer's HEADERS. `Ok(false)` when the stream was
    /// refused and reset instead.
    fn open_stream(&mut self, stream_id: StreamId, end_stream: bool, what: &str) -> (r: Result<
        bool,
        ConnectionError,
    >)
        requires
            old(self).wf(),
        ensures
            final(self).wf(),
            ({
                let (m, expected) = old(self)@.opens(stream_id.value(), end_stream, what@);
                &&& final(self)@ == m
                &&& match r {
                    Ok(b) => expected == Ok::<bool, Fault>(b),
                    Err(e) => expected == Err::<bool, Fault>(e@),
                }
            }),
    {
        proof {
            reveal(ConnModel::opens);
        }
        let ghost opened = old(self)@.streams.peer_opens(stream_id.value()).0;
        let rejection = match self.streams.open_peer(stream_id) {
            Ok(_) => None,
            Err(rejection) => Some(rejection),
        };
        proof {
            if rejection is None {
                assert(opened.live.contains_key(stream_id.value()));
                assert(opened.live.insert(
                    stream_id.value(),
                    opened.live[stream_id.value()],
                ) =~= opened.live);
            }
            assert(self@.streams =~= opened);
        }
        match rejection {
            None => match self.apply_stream_event(
                stream_id,
                StreamEvent::RecvHeaders { end_stream },
                what,
            ) {
                Ok(()) => Ok(true),
                Err(e) => Err(e),
            },
            Some(OpenRejection::Protocol(why)) => {
                let mut text = numbered_text("stream ", stream_id.get(), ": ");
                text.append(why);
                Err(ConnectionError::new(ErrorCode::ProtocolError, text))
            },
            Some(OpenRejection::Refused) => match self.write_rst_stream(
                stream_id,
                ErrorCode::RefusedStream,
            ) {
                Ok(()) => Ok(false),
                Err(e) => Err(e),
            },
        }
    }

    /// Answers a request we refuse to process with a bare status and
    /// END_STREAM.
    fn reject_stream(&mut self, stream_id: StreamId, status: u16) -> (r: Result<
        (),
        ConnectionError,
    >)
        requires
            old(self).wf(),
        ensures
            final(self).wf(),
            ends_as(old(self)@.rejects(stream_id.value(), status), final(self)@, r),
    {
        proof {
            reveal(ConnModel::rejects);
        }
        let open = match self.streams.get_mut(stream_id) {
            Some(stream) => Some(stream.state.peer_can_send()),
            None => None,
        };
        assert(self@ =~= old(self)@);
        match open {
            None => match self.open_stream(stream_id, true, "oversized request") {
                Ok(true) => {},
                Ok(false) => return Ok(()),
                Err(e) => return Err(e),
            },
            Some(true) => {},
            Some(false) => return self.apply_stream_event(
                stream_id,
                StreamEvent::RecvHeaders { end_stream: true },
                "oversized request",
            ),
        }
        self.send_response(stream_id, Response::status(status), Body::Empty)
    }

    /// A complete field section has arrived: open the stream, validate the
    /// message, and hand the request out to be answered.
    fn recv_request(&mut self, stream_id: StreamId, headers: &[Header], end_stream: bool) -> (r:
        Result<(), ConnectionError>)
        requires
            old(self).wf(),
        ensures
            final(self).wf(),
            ends_as(
                old(self)@.takes_request(stream_id.value(), headers_view(headers@), end_stream),
                final(self)@,
                r,
            ),
    {
        proof {
            reveal(ConnModel::takes_request);
            reveal(ConnModel::takes_trailers);
        }
        let open = match self.streams.get_mut(stream_id) {
            Some(stream) => Some(stream.state.peer_can_send()),
            None => None,
        };
        assert(self@ =~= old(self)@);
        if let Some(open) = open {
            // A second field section on a live stream is a trailer section, as
            // long as the request has not ended.
            if open {
                if !end_stream {
                    return self.write_rst_stream(stream_id, ErrorCode::ProtocolError);
                }
                if let Err(code) = validate_trailers(headers) {
                    return self.write_rst_stream(stream_id, code);
                }
                if let Some(code) = self.request_body_error(stream_id) {
                    return self.write_rst_stream(stream_id, code);
                }
            }
            match self.apply_stream_event(
                stream_id,
                StreamEvent::RecvHeaders { end_stream },
                "trailers",
            ) {
                Ok(()) => {},
                Err(e) => return Err(e),
            }
            // A body that goes back as it came is over too.
            let nothing = Bytes::new();
            self.mirror(stream_id, &nothing, end_stream);
            return Ok(());
        }
        match self.open_stream(stream_id, end_stream, "request") {
            Ok(true) => {},
            Ok(false) => return Ok(()),
            Err(e) => return Err(e),
        }
        // A malformed message is a stream error: it must not take down the
        // other streams sharing this connection.
        let head = match RequestHead::from_headers(headers) {
            Ok(head) => head,
            Err(code) => return self.write_rst_stream(stream_id, code),
        };
        let ghost m0 = self@;
        match head.content_length() {
            Some(Ok(declared)) => {
                if let Some(stream) = self.streams.get_mut(stream_id) {
                    stream.content_length = Some(declared);
                }
            },
            Some(Err(code)) => return self.write_rst_stream(stream_id, code),
            None => {},
        }
        let ghost m1 = self@;
        // A bodyless request with a nonzero `content-length` is already wrong.
        if end_stream {
            if let Some(code) = self.request_body_error(stream_id) {
                return self.write_rst_stream(stream_id, code);
            }
        }
        let dispatch = Dispatch { id: stream_id, head, end_stream };
        let ghost d = dispatch@;
        let ghost before = self.requests@;
        self.requests.push(dispatch);
        assert(dispatches_view(self.requests@) =~= dispatches_view(before).push(d));
        Ok(())
    }

    /// Takes one fragment of a header block, decoding once END_HEADERS arrives.
    fn read_header_block(&mut self, stream_id: StreamId, fragment: &Bytes, end_headers: bool) -> (r:
        Result<(), ConnectionError>)
        requires
            old(self).wf(),
        ensures
            final(self).wf(),
            ends_as(
                old(self)@.takes_fragment(stream_id.value(), octets(*fragment), end_headers),
                final(self)@,
                r,
            ),
    {
        proof {
            reveal(ConnModel::takes_fragment);
        }
        let pending = self.header_block.len();
        if pending > MAX_HEADER_BLOCK_BYTES || fragment.len() > MAX_HEADER_BLOCK_BYTES - pending {
            self.header_block.clear();
            return Err(
                ConnectionError::with_text(
                    ErrorCode::EnhanceYourCalm,
                    "header block exceeds 65536 octets before END_HEADERS",
                ),
            );
        }
        let ghost whole = buffered(self.header_block) + octets(*fragment);
        let block = if end_headers && pending == 0 {
            // The common case: one frame carries the whole block.
            assert(whole =~= octets(*fragment));
            assert(buffered(self.header_block) =~= Seq::empty());
            fragment.clone()
        } else {
            put_slice(&mut self.header_block, as_slice(fragment));
            if !end_headers {
                return Ok(());
            }
            self.header_block.split().freeze()
        };
        let decoded = self.hpack_dec.decode(&block);
        match decoded {
            Ok(headers) => {
                self.summary.header_blocks_decoded = self.summary.header_blocks_decoded.saturating_add(
                    1,
                );
                let end_stream = self.open_header_end_stream;
                self.recv_request(stream_id, &headers, end_stream)
            },
            Err(HpackError::HeaderListTooLarge { .. }) => {
                self.summary.header_blocks_decoded = self.summary.header_blocks_decoded.saturating_add(
                    1,
                );
                self.reject_stream(stream_id, 431)
            },
            Err(e) => Err(e.into_connection_error()),
        }
    }

    /// Gives connection-level credit back.
    fn release_conn(&mut self, len: u32) -> (r: Result<(), ConnectionError>)
        requires
            old(self).wf(),
        ensures
            final(self).wf(),
            ends_as(old(self)@.releases_conn(len), final(self)@, r),
    {
        proof {
            reveal(ConnModel::releases_conn);
        }
        match self.conn_recv_window.release(len) {
            Some(increment) => self.write_frame(
                &Frame::WindowUpdate { stream_id: StreamId::connection(), increment },
            ),
            None => Ok(()),
        }
    }

    /// Gives a stream's credit back.
    fn release_stream(&mut self, stream_id: StreamId, len: u32) -> (r: Result<(), ConnectionError>)
        requires
            old(self).wf(),
        ensures
            final(self).wf(),
            ends_as(old(self)@.releases_stream(stream_id.value(), len), final(self)@, r),
    {
        proof {
            reveal(ConnModel::releases_stream);
        }
        let due = match self.streams.get_mut(stream_id) {
            None => return Ok(()),
            Some(stream) => stream.recv_window.release(len),
        };
        match due {
            Some(increment) => self.write_frame(&Frame::WindowUpdate { stream_id, increment }),
            None => Ok(()),
        }
    }

    /// Queues a mirrored stream's DATA to go back.
    fn mirror(&mut self, stream_id: StreamId, data: &Bytes, end_stream: bool)
        requires
            old(self).wf(),
        ensures
            final(self).wf(),
            final(self)@ == old(self)@.mirrors(stream_id.value(), octets(*data), end_stream),
    {
        proof {
            reveal(ConnModel::mirrors);
        }
        let echoing = match self.streams.get_mut(stream_id) {
            None => false,
            Some(stream) => {
                if stream.echoing {
                    if !data.is_empty() {
                        let ghost before = stream.send_queue@;
                        let chunk = data.clone();
                        stream.send_queue.push_back(chunk);
                        assert(chunks(stream.send_queue@) =~= chunks(before).push(octets(*data)));
                    }
                    if end_stream {
                        stream.send_end_stream = true;
                    }
                    true
                } else {
                    false
                }
            },
        };
        if echoing {
            self.enqueue_ready(stream_id);
        } else {
            assert(self@ =~= old(self)@);
        }
    }

    /// Accounts for inbound DATA at both flow-control levels and feeds an echo.
    fn recv_data(&mut self, stream_id: StreamId, data: &Bytes, end_stream: bool) -> (r: Result<
        (),
        ConnectionError,
    >)
        requires
            old(self).wf(),
        ensures
            final(self).wf(),
            ends_as(
                old(self)@.takes_data(stream_id.value(), octets(*data), end_stream),
                final(self)@,
                r,
            ),
    {
        proof {
            reveal(ConnModel::takes_data);
        }
        let len = data.len() as u32;
        if let Err(code) = self.conn_recv_window.record(len) {
            return Err(
                ConnectionError::with_text(
                    code,
                    "peer exceeded the connection flow-control window",
                ),
            );
        }
        match self.release_conn(len) {
            Ok(()) => {},
            Err(e) => return Err(e),
        }
        let ghost m0 = self@;
        match self.streams.lookup(stream_id) {
            Lookup::Idle => {
                return Err(
                    ConnectionError::new(
                        ErrorCode::ProtocolError,
                        numbered_text(
                            "DATA on stream ",
                            stream_id.get(),
                            ", which was never opened",
                        ),
                    ),
                );
            },
            Lookup::Closed => {
                return self.write_rst_stream(stream_id, ErrorCode::StreamClosed);
            },
            Lookup::Live(_) => {},
        }
        assert(self@ =~= m0);
        self.recv_live_data(stream_id, data, end_stream)
    }

    /// Accounts for DATA on a live stream and feeds an echo.
    fn recv_live_data(&mut self, stream_id: StreamId, data: &Bytes, end_stream: bool) -> (r: Result<
        (),
        ConnectionError,
    >)
        requires
            old(self).wf(),
            old(self)@.streams.live.contains_key(stream_id.value()),
        ensures
            final(self).wf(),
            ends_as(
                old(self)@.takes_live_data(stream_id.value(), octets(*data), end_stream),
                final(self)@,
                r,
            ),
    {
        proof {
            reveal(ConnModel::takes_live_data);
        }
        let len = data.len() as u32;
        let (open, overspent) = match self.streams.get_mut(stream_id) {
            None => return Ok(()),
            Some(stream) => {
                stream.data_received = stream.data_received.saturating_add(len as u64);
                let overspent = match stream.recv_window.record(len) {
                    Ok(()) => None,
                    Err(code) => Some(code),
                };
                (stream.state.peer_can_send(), overspent)
            },
        };
        if let Some(code) = overspent {
            return self.write_rst_stream(stream_id, code);
        }
        // Judge `content-length` at the moment the body ends, before the
        // terminal transition retires the stream and its counters.
        if end_stream && open {
            if let Some(code) = self.request_body_error(stream_id) {
                return self.write_rst_stream(stream_id, code);
            }
        }
        match self.apply_stream_event(stream_id, StreamEvent::RecvData { end_stream }, "data") {
            Ok(()) => {},
            Err(e) => return Err(e),
        }
        self.mirror(stream_id, data, end_stream);
        // The credit is released once the octets are queued onward.
        self.release_stream(stream_id, len)
    }

    /// The peer abandoned a stream.
    fn recv_rst_stream(&mut self, stream_id: StreamId) -> (r: Result<(), ConnectionError>)
        requires
            old(self).wf(),
        ensures
            final(self).wf(),
            ends_as(old(self)@.takes_reset(stream_id.value()), final(self)@, r),
    {
        proof {
            reveal(ConnModel::takes_reset);
        }
        match self.streams.lookup(stream_id) {
            Lookup::Idle => {
                return Err(
                    ConnectionError::new(
                        ErrorCode::ProtocolError,
                        numbered_text(
                            "RST_STREAM on stream ",
                            stream_id.get(),
                            ", which was never opened",
                        ),
                    ),
                );
            },
            Lookup::Closed => return Ok(()),
            Lookup::Live(_) => {},
        }
        self.summary.streams_reset = self.summary.streams_reset.saturating_add(1);
        self.streams.retire(stream_id);
        remove_from_ring(&mut self.ready, stream_id.get());
        assert(self@.streams.live =~= old(self)@.streams.live.remove(stream_id.value()));
        Ok(())
    }

    /// Credits a send window (§6.9).
    fn recv_window_update(&mut self, stream_id: StreamId, increment: u32) -> (r: Result<
        (),
        ConnectionError,
    >)
        requires
            old(self).wf(),
        ensures
            final(self).wf(),
            ends_as(old(self)@.takes_credit(stream_id.value(), increment), final(self)@, r),
    {
        proof {
            reveal(ConnModel::takes_credit);
        }
        if increment == 0 {
            return if stream_id.is_connection() {
                Err(
                    ConnectionError::with_text(
                        ErrorCode::ProtocolError,
                        "WINDOW_UPDATE with a zero increment on stream 0",
                    ),
                )
            } else {
                self.write_rst_stream(stream_id, ErrorCode::ProtocolError)
            };
        }
        if stream_id.is_connection() {
            return match self.conn_send_window.increase(increment) {
                Ok(()) => Ok(()),
                Err(code) => Err(
                    ConnectionError::with_text(
                        code,
                        "WINDOW_UPDATE overflows the connection window",
                    ),
                ),
            };
        }
        let overflowed = match self.streams.lookup(stream_id) {
            Lookup::Idle => {
                return Err(
                    ConnectionError::new(
                        ErrorCode::ProtocolError,
                        numbered_text(
                            "WINDOW_UPDATE on stream ",
                            stream_id.get(),
                            ", which was never opened",
                        ),
                    ),
                );
            },
            Lookup::Closed => return Ok(()),
            Lookup::Live(stream) => stream.send_window.increase(increment).is_err(),
        };
        if overflowed {
            assert(self@ =~= old(self)@);
            return self.write_rst_stream(stream_id, ErrorCode::FlowControlError);
        }
        self.enqueue_ready(stream_id);
        Ok(())
    }

    /// Applies the peer's SETTINGS and acknowledges them (§6.5.3).
    fn recv_settings(&mut self, params: &[(u16, u32)]) -> (r: Result<(), ConnectionError>)
        requires
            old(self).wf(),
        ensures
            final(self).wf(),
            ends_as(old(self)@.takes_settings(params@), final(self)@, r),
    {
        proof {
            reveal(ConnModel::takes_settings);
        }
        let previous = self.peer_settings.initial_window_size;
        match self.peer_settings.apply(params) {
            Ok(()) => {},
            Err(e) => return Err(e),
        }
        self.hpack_enc.set_max_table_size(self.peer_settings.header_table_size as usize);
        // The change applies to every open stream by the difference: a stream
        // that has spent credit must not have it silently restored.
        let delta: i64 = self.peer_settings.initial_window_size as i64 - previous as i64;
        if delta != 0 {
            if let Err(code) = self.streams.apply_initial_window_delta(delta as i32) {
                return Err(
                    ConnectionError::with_text(
                        code,
                        "INITIAL_WINDOW_SIZE change overflows a stream window",
                    ),
                );
            }
        }
        match self.write_settings_ack() {
            Ok(()) => {},
            Err(e) => return Err(e),
        }
        self.summary.handshake_completed = true;
        Ok(())
    }

    /// Acknowledges the peer's SETTINGS (§6.5.3).
    fn write_settings_ack(&mut self) -> (r: Result<(), ConnectionError>)
        requires
            old(self).wf(),
        ensures
            final(self).wf(),
            ends_as(
                old(self)@.sends(FrameModel::Settings { ack: true, params: Seq::empty() }),
                final(self)@,
                r,
            ),
    {
        let params: Vec<(u16, u32)> = Vec::new();
        assert(params@ =~= Seq::empty());
        self.write_frame(&Frame::Settings { ack: true, params })
    }

    /// The fault of a frame between a HEADERS and its CONTINUATION.
    fn interrupted(open: StreamId, kind: FrameType, stream_id: StreamId) -> (e: ConnectionError)
        ensures
            forall|m: ConnModel|
                e@ == #[trigger] m.interrupted(open.value(), kind, stream_id.value()),
    {
        let mut text = numbered_text("expected CONTINUATION on stream ", open.get(), ", got ");
        kind.push_text(&mut text);
        let tail = numbered_text(" on stream ", stream_id.get(), "");
        text.append(tail.as_str());
        ConnectionError::new(ErrorCode::ProtocolError, text)
    }

    /// §4.3 for the frames the codec discards: an ignorable type is still a
    /// frame, and no frame may sit between a HEADERS and its CONTINUATION.
    fn reject_if_mid_header_block(&self, kind: FrameType, stream_id: StreamId) -> (r: Result<
        (),
        ConnectionError,
    >)
        ensures
            match r {
                Ok(()) => self@.open_block is None,
                Err(e) => self@.open_block is Some && e@ == self@.interrupted(
                    self@.open_block->0,
                    kind,
                    stream_id.value(),
                ),
            },
    {
        match self.open_header_block {
            Some(open) => Err(Self::interrupted(open, kind, stream_id)),
            None => Ok(()),
        }
    }

    /// Acts on one decoded frame. Connection-control frames are answered here;
    /// stream-addressed frames are routed onto the stream table.
    pub fn handle_frame(&mut self, frame: Frame) -> (r: Result<Next, ConnectionError>)
        requires
            old(self).wf(),
        ensures
            final(self).wf(),
            final(self)@ == old(self)@.handles(frame@).0,
            match r {
                Ok(next) => old(self)@.handles(frame@).1 == Ok::<Next, Fault>(next),
                Err(e) => old(self)@.handles(frame@).1 == Err::<Next, Fault>(e@),
            },
    {
        let continuation = matches!(frame, Frame::Continuation { .. });
        match self.open_header_block {
            Some(open) => {
                if !continuation || frame.stream_id().get() != open.get() {
                    return Err(Self::interrupted(open, frame.kind(), frame.stream_id()));
                }
            },
            None => {
                if continuation {
                    return Err(
                        ConnectionError::new(
                            ErrorCode::ProtocolError,
                            numbered_text(
                                "CONTINUATION on stream ",
                                frame.stream_id().get(),
                                " with no header block open",
                            ),
                        ),
                    );
                }
            },
        }
        let ghost m0 = self@;
        let done = match &frame {
            Frame::Settings { ack, params } => if *ack {
                Ok(())
            } else {
                self.recv_settings(params)
            },
            Frame::Ping { data, ack } => if *ack {
                Ok(())
            } else {
                self.write_frame(&Frame::Ping { data: *data, ack: true })
            },
            Frame::GoAway { .. } => return Ok(Next::Close),
            Frame::WindowUpdate { stream_id, increment } => self.recv_window_update(
                *stream_id,
                *increment,
            ),
            Frame::Headers { stream_id, block, end_stream, end_headers } => {
                if self.open_header_block.is_none() {
                    self.open_header_end_stream = *end_stream;
                }
                self.read_header_block(*stream_id, block, *end_headers)
            },
            Frame::Continuation { stream_id, block, end_headers } => self.read_header_block(
                *stream_id,
                block,
                *end_headers,
            ),
            Frame::Data { stream_id, data, end_stream } => self.recv_data(
                *stream_id,
                data,
                *end_stream,
            ),
            Frame::RstStream { stream_id, .. } => self.recv_rst_stream(*stream_id),
        };
        assert(ends_as(m0.acts_on(frame@), self@, done));
        match done {
            Ok(()) => {},
            Err(e) => return Err(e),
        }
        let ghost m1 = self@;
        match &frame {
            Frame::Headers { stream_id, end_headers, .. }
            | Frame::Continuation { stream_id, end_headers, .. } => {
                self.open_header_block = if *end_headers {
                    None
                } else {
                    Some(*stream_id)
                };
            },
            _ => {},
        }
        assert(self@ =~= (ConnModel { open_block: m1.block_after(frame@), ..m1 }));
        Ok(Next::Continue)
    }

    /// Appends octets that arrived from the peer.
    pub fn feed(&mut self, data: &[u8])
        requires
            old(self).wf(),
        ensures
            final(self).wf(),
            final(self)@ == (ConnModel { input: old(self)@.input + data@, ..old(self)@ }),
    {
        put_slice(&mut self.read_buf, data);
    }

    /// Hands out the octets to write to the peer.
    pub fn take_output(&mut self) -> (b: Bytes)
        requires
            old(self).wf(),
        ensures
            final(self).wf(),
            octets(b) == old(self)@.output,
            final(self)@ == (ConnModel { output: Seq::empty(), ..old(self)@ }),
    {
        self.write_buf.split().freeze()
    }

    /// Hands out the requests waiting to be answered.
    pub fn take_requests(&mut self) -> (list: Vec<Dispatch>)
        requires
            old(self).wf(),
        ensures
            final(self).wf(),
            dispatches_view(list@) == old(self)@.requests,
            final(self)@ == (ConnModel { requests: Seq::empty(), ..old(self)@ }),
    {
        let mut list: Vec<Dispatch> = Vec::new();
        std::mem::swap(&mut list, &mut self.requests);
        assert(dispatches_view(self.requests@) =~= Seq::empty());
        list
    }

    /// Sends our half of the connection preface: SETTINGS, before anything is
    /// read (§3.4), then the stream-0 WINDOW_UPDATE that raises the connection
    /// window, which SETTINGS cannot (§6.9.1).
    pub fn start(&mut self) -> (r: Result<(), ConnectionError>)
        requires
            old(self).wf(),
        ensures
            final(self).wf(),
            ends_as(old(self)@.starts(), final(self)@, r),
    {
        let settings = self.local_settings.to_frame();
        match self.write_frame(&settings) {
            Ok(()) => {},
            Err(e) => return Err(e),
        }
        self.write_frame(
            &Frame::WindowUpdate {
                stream_id: StreamId::connection(),
                increment: CONNECTION_WINDOW_BOOTSTRAP,
            },
        )
    }

    /// Checks the client's half of the preface: 24 fixed octets.
    pub fn accept_preface(&mut self) -> (r: Preface)
        requires
            old(self).wf(),
        ensures
            final(self).wf(),
            final(self)@ == old(self)@.greeted().0,
            r == old(self)@.greeted().1,
    {
        let preface = PREFACE.as_bytes();
        if self.read_buf.len() < preface.len() {
            return Preface::Incomplete;
        }
        let head = vstd::slice::slice_subrange(as_slice_mut(&self.read_buf), 0, preface.len());
        assert(head@ =~= buffered(self.read_buf).take(preface@.len() as int));
        if !same_octets(head, preface) {
            return Preface::Mismatch;
        }
        let _ = self.read_buf.split_to(preface.len());
        assert(self@.input =~= old(self)@.input.skip(preface@.len() as int));
        Preface::Accepted
    }

    /// Acts on every complete frame that has arrived, until a request waits to be
    /// answered: what follows it may depend on the answer.
    pub fn process_input(&mut self) -> (r: Result<Next, ConnectionError>)
        requires
            old(self).wf(),
        ensures
            final(self).wf(),
            final(self)@ == old(self)@.drains().0,
            match r {
                Ok(next) => old(self)@.drains().1 == Ok::<Next, Fault>(next),
                Err(e) => old(self)@.drains().1 == Err::<Next, Fault>(e@),
            },
    {
        loop
            invariant
                self.wf(),
                old(self)@.drains() == self@.drains(),
            decreases self@.input.len(),
        {
            let ghost m0 = self@;
            if self.requests.len() != 0 {
                return Ok(Next::Continue);
            }
            match self.codec.decode_any(&mut self.read_buf) {
                Ok(None) => return Ok(Next::Continue),
                Err(e) => return Err(ConnectionError::new(e.code(), e.message())),
                Ok(Some(Decoded::Ignored { kind, stream_id })) => {
                    match self.reject_if_mid_header_block(kind, stream_id) {
                        Ok(()) => {},
                        Err(e) => return Err(e),
                    }
                    assert(self@.input.len() < m0.input.len());
                },
                Ok(Some(Decoded::Frame(frame))) => {
                    self.summary.frames_received = self.summary.frames_received.saturating_add(1);
                    let ghost m1 = self@;
                    match self.handle_frame(frame) {
                        Ok(Next::Continue) => {},
                        Ok(Next::Close) => return Ok(Next::Close),
                        Err(e) => return Err(e),
                    }
                    proof {
                        lemma_handles_keeps(m1, frame@);
                    }
                },
            }
        }
    }

    /// Answers requests with the built-in responder, in order.
    fn answer_all(&mut self, list: &Vec<Dispatch>, default_body: usize) -> (r: Result<
        (),
        ConnectionError,
    >)
        requires
            old(self).wf(),
        ensures
            final(self).wf(),
            ends_as(
                old(self)@.answers_all(dispatches_view(list@), default_body as nat),
                final(self)@,
                r,
            ),
    {
        let ghost all = dispatches_view(list@);
        let mut i: usize = 0;
        assert(all.take(0) =~= Seq::empty());
        while i < list.len()
            invariant
                self.wf(),
                all == dispatches_view(list@),
                i <= list@.len(),
                old(self)@.answers_all(all.take(i as int), default_body as nat) == (
                    self@,
                    None::<Fault>,
                ),
            decreases list@.len() - i,
        {
            assert(all.take(i + 1).drop_last() =~= all.take(i as int));
            let (response, body) = built_in_response(
                &list[i].head,
                list[i].end_stream,
                default_body,
            );
            match self.send_response(list[i].id, response, body) {
                Ok(()) => {},
                Err(e) => {
                    proof {
                        lemma_answers_all_stops(
                            old(self)@,
                            all,
                            default_body as nat,
                            i + 1,
                        );
                    }
                    return Err(e);
                },
            }
            i += 1;
        }
        assert(all.take(i as int) =~= all);
        Ok(())
    }

    /// One turn of the loop between two reads, answering with the built-in
    /// responder: octets the path asks for, or the request's own body mirrored,
    /// or `default_body` octets where the request has none.
    pub fn serve(&mut self, default_body: usize) -> (r: Result<Next, ConnectionError>)
        requires
            old(self).wf(),
        ensures
            final(self).wf(),
            final(self)@ == old(self)@.serves(default_body as nat).0,
            match r {
                Ok(next) => old(self)@.serves(default_body as nat).1 == Ok::<Next, Fault>(next),
                Err(e) => old(self)@.serves(default_body as nat).1 == Err::<Next, Fault>(e@),
            },
    {
        proof {
            self.lemma_finite();
        }
        loop
            invariant
                self.wf(),
                self@.streams.live.dom().finite(),
                old(self)@.serves(default_body as nat) == self@.serves(default_body as nat),
            decreases self@.input.len(), self@.requests.len(),
        {
            proof {
                lemma_serves_ends(self@, default_body as nat);
            }
            match self.process_input() {
                Ok(Next::Continue) => {},
                Ok(Next::Close) => return Ok(Next::Close),
                Err(e) => return Err(e),
            }
            if self.requests.len() == 0 {
                return match self.pump_outbound() {
                    Ok(()) => Ok(Next::Continue),
                    Err(e) => Err(e),
                };
            }
            let list = self.take_requests();
            match self.answer_all(&list, default_body) {
                Ok(()) => {},
                Err(e) => return Err(e),
            }
            proof {
                self.lemma_finite();
            }
        }
    }

    /// Reports a connection error to the peer as GOAWAY, naming the highest
    /// stream seen.
    pub fn fail(&mut self, err: ConnectionError)
        requires
            old(self).wf(),
        ensures
            final(self).wf(),
            final(self)@ == old(self)@.fails(err@),
    {
        let go_away = Frame::GoAway {
            last_stream_id: self.streams.highest_peer_id(),
            error_code: err.code,
            debug_data: text_bytes(err.debug.as_str()),
        };
        let _ = self.write_frame(&go_away);
    }

    /// What the connection has done so far.
    pub fn summary(&self) -> (s: ConnectionSummary)
        requires
            self.wf(),
        ensures
            s == (ConnectionSummary {
                peak_concurrent_streams: self@.streams.peak,
                streams_opened: self@.streams.opened_total,
                ..self@.summary
            }),
    {
        ConnectionSummary {
            peak_concurrent_streams: self.streams.peak_concurrent(),
            streams_opened: self.streams.opened(),
            ..self.summary
        }
    }

    // ---- sending -----------------------------------------------------------

    /// One visit in the round-robin: writes at most one DATA frame for
    /// `stream_id`, within the budget. The caller owns the ring.
    fn visit_ready_stream(&mut self, stream_id: StreamId) -> (r: Result<Visit, ConnectionError>)
        requires
            old(self).wf(),
        ensures
            final(self).wf(),
            final(self)@ == old(self)@.visits(stream_id.value()).0,
            match r {
                Ok(v) => old(self)@.visits(stream_id.value()).1 == Ok::<Visit, Fault>(v),
                Err(e) => old(self)@.visits(stream_id.value()).1 == Err::<Visit, Fault>(e@),
            },
    {
        proof {
            reveal(ConnModel::visits);
        }
        let conn_window = self.conn_send_window;
        let max_frame_size = self.peer_settings.max_frame_size;
        let (chunk, end_stream) = match self.streams.get_mut(stream_id) {
            None => return Ok(Visit::Finished),
            Some(stream) => {
                stream.queued = false;
                let most = budget(stream.send_window, conn_window, max_frame_size);
                if stream.pending_send() > 0 && most == 0 {
                    return Ok(Visit::Stalled);
                }
                let ghost q = chunks(stream.send_queue@);
                let chunk = take_from_queue(&mut stream.send_queue, most);
                proof {
                    lemma_taken_len(q, most as nat);
                }
                let drained = stream.send_queue.len() == 0;
                let end_stream = drained && stream.send_end_stream;
                if chunk.is_empty() && !end_stream {
                    return Ok(Visit::Finished);
                }
                // Cleared on the visit that spends it, or the stream would be
                // queued again to end a second time.
                if end_stream {
                    stream.send_end_stream = false;
                }
                let len = chunk.len() as u32;
                if len > 0 {
                    let _ = stream.send_window.consume(len);
                }
                (chunk, end_stream)
            },
        };
        let len = chunk.len() as u32;
        if len > 0 {
            let _ = self.conn_send_window.consume(len);
        }
        self.send_chunk(stream_id, chunk, end_stream)
    }

    /// Writes one DATA frame whose credit has been spent.
    fn send_chunk(&mut self, stream_id: StreamId, chunk: Bytes, end_stream: bool) -> (r: Result<
        Visit,
        ConnectionError,
    >)
        requires
            old(self).wf(),
            octets(chunk).len() <= u32::MAX,
        ensures
            final(self).wf(),
            ({
                let (m, expected) = old(self)@.sends_chunk(
                    stream_id.value(),
                    octets(chunk),
                    end_stream,
                );
                &&& final(self)@ == m
                &&& match r {
                    Ok(v) => expected == Ok::<Visit, Fault>(v),
                    Err(e) => expected == Err::<Visit, Fault>(e@),
                }
            }),
    {
        proof {
            reveal(ConnModel::sends_chunk);
        }
        let len = chunk.len() as u32;
        match self.write_frame(&Frame::Data { stream_id, data: chunk, end_stream }) {
            Ok(()) => {},
            Err(e) => return Err(e),
        }
        self.summary.data_bytes_sent = self.summary.data_bytes_sent.saturating_add(len as u64);
        match self.apply_stream_event(
            stream_id,
            StreamEvent::SendData { end_stream },
            "response data",
        ) {
            Ok(()) => {},
            Err(e) => return Err(e),
        }
        let ghost m1 = self@;
        let more = match self.streams.get_mut(stream_id) {
            None => false,
            Some(stream) => stream.has_pending_send(),
        };
        assert(self@ =~= m1);
        Ok(Visit::Wrote { more })
    }

    /// Emits the RST_STREAMs that are owed.
    fn flush_pending_resets(&mut self) -> (r: Result<(), ConnectionError>)
        requires
            old(self).wf(),
        ensures
            final(self).wf(),
            ends_as(old(self)@.flushes(), final(self)@, r),
    {
        loop
            invariant
                self.wf(),
                old(self)@.flushes() == self@.flushes(),
            decreases self.pending_reset@.len(),
        {
            let ghost m0 = self@;
            match self.pending_reset.pop() {
                None => {
                    assert(self@ =~= m0);
                    return Ok(());
                },
                Some(err) => {
                    assert(self@.pending_reset =~= m0.pending_reset.drop_last());
                    proof {
                        lemma_resets_pending(self@, err.stream.value(), err.code);
                    }
                    match self.write_rst_stream(err.stream, err.code) {
                        Ok(()) => {},
                        Err(e) => return Err(e),
                    }
                },
            }
        }
    }

    /// Writes as much queued DATA as the two windows allow, fairly.
    ///
    /// Round-robin over the ready ring, with a per-visit ceiling. The ring is
    /// rebuilt after every lap with the stalled streams first, in their
    /// original order, and the streams that were served behind them: a stream
    /// that stalls must not land behind whoever wrote in the same lap.
    pub fn pump_outbound(&mut self) -> (r: Result<(), ConnectionError>)
        requires
            old(self).wf(),
        ensures
            final(self).wf(),
            ends_as(old(self)@.pumps(), final(self)@, r),
    {
        while self.ready.len() != 0
            invariant
                self.wf(),
                old(self)@.pumps() == self@.pumps(),
            decreases self@.work_left(),
        {
            let ghost m0 = self@;
            proof {
                self.lemma_finite();
                lemma_laps_use_work(m0);
            }
            let mut ring: VecDeque<u32> = VecDeque::new();
            std::mem::swap(&mut ring, &mut self.ready);
            let ghost start = ConnModel { ready: Seq::empty(), ..m0 };
            assert(self@ =~= start);
            let mut stalled: VecDeque<u32> = VecDeque::new();
            let mut served: VecDeque<u32> = VecDeque::new();
            let mut wrote = false;
            let mut i: usize = 0;
            assert(ring@.take(0) =~= Seq::empty());
            assert(stalled@ =~= Seq::empty());
            assert(served@ =~= Seq::empty());
            while i < ring.len()
                invariant
                    self.wf(),
                    i <= ring@.len(),
                    m0.streams.live.dom().finite(),
                    old(self)@.pumps() == m0.pumps(),
                    m0.ready == ring@,
                    m0.ready.len() != 0,
                    start == (ConnModel { ready: Seq::empty(), ..m0 }),
                    lap(start, ring@.take(i as int)) == (LapModel {
                        conn: self@,
                        stalled: stalled@,
                        served: served@,
                        wrote,
                        fault: None,
                    }),
                decreases ring@.len() - i,
            {
                let id = ring[i];
                assert(ring@.take(i + 1).drop_last() =~= ring@.take(i as int));
                match self.visit_ready_stream(StreamId(id)) {
                    Ok(Visit::Stalled) => stalled.push_back(id),
                    Ok(Visit::Wrote { more }) => {
                        wrote = true;
                        if more {
                            served.push_back(id);
                        }
                    },
                    Ok(Visit::Finished) => {},
                    Err(e) => {
                        proof {
                            lemma_lap_stops(start, ring@, i + 1);
                        }
                        return Err(e);
                    },
                }
                i += 1;
            }
            assert(ring@.take(i as int) =~= ring@);
            stalled.append(&mut served);
            self.ready = rebuild_ring(&mut self.streams, stalled);
            assert(self@ =~= m0.laps().conn);
            if !wrote {
                if self.ready.len() != 0 {
                    self.summary.flow_control_stalls = self.summary.flow_control_stalls.saturating_add(
                        1,
                    );
                }
                return self.flush_pending_resets();
            }
        }
        proof {
            self.lemma_finite();
        }
        self.flush_pending_resets()
    }

    /// There are only so many live streams.
    proof fn lemma_finite(&self)
        ensures
            self@.streams.live.dom().finite(),
    {
        assert(self@.streams.live.dom() =~= self.streams.live@.dom());
    }
}

/// Answering stops at the first fault.
proof fn lemma_answers_all_stops(m: ConnModel, list: Seq<DispatchModel>, default_body: nat, k: int)
    requires
        0 <= k <= list.len(),
        m.answers_all(list.take(k), default_body).1 is Some,
    ensures
        m.answers_all(list, default_body) == m.answers_all(list.take(k), default_body),
    decreases list.len(),
{
    if k < list.len() {
        assert(list.drop_last().take(k) =~= list.take(k));
        lemma_answers_all_stops(m, list.drop_last(), default_body, k);
    } else {
        assert(list.take(k) =~= list);
    }
}

/// A lap that faulted goes no further.
proof fn lemma_lap_stops(m: ConnModel, ids: Seq<u32>, k: int)
    requires
        0 <= k <= ids.len(),
        lap(m, ids.take(k)).fault is Some,
    ensures
        lap(m, ids) == lap(m, ids.take(k)),
    decreases ids.len(),
{
    if k < ids.len() {
        assert(ids.drop_last().take(k) =~= ids.take(k));
        lemma_lap_stops(m, ids.drop_last(), k);
    } else {
        assert(ids.take(k) =~= ids);
    }
}

/// What comes off a queue is within the budget.
pub proof fn lemma_taken_len(queue: Seq<Seq<u8>>, most: nat)
    ensures
        taken_front(queue, most).0.len() <= most,
{
}

impl ConnModel {
    /// The handshake's frames are queued.
    pub open spec fn starts(self) -> Outcome {
        let (m, f) = self.sends(
            FrameModel::Settings { ack: false, params: advertised(self.local) },
        );
        if f is Some {
            (m, f)
        } else {
            m.sends(
                FrameModel::WindowUpdate { stream_id: 0, increment: CONNECTION_WINDOW_BOOTSTRAP },
            )
        }
    }

    /// The client's preface is looked for, and consumed where it is there.
    pub open spec fn greeted(self) -> (ConnModel, Preface) {
        let preface = encode_utf8(PREFACE@);
        if self.input.len() < preface.len() {
            (self, Preface::Incomplete)
        } else if self.input.take(preface.len() as int) != preface {
            (self, Preface::Mismatch)
        } else {
            (
                ConnModel { input: self.input.skip(preface.len() as int), ..self },
                Preface::Accepted,
            )
        }
    }

    /// A fault is reported as GOAWAY.
    pub open spec fn fails(self, f: Fault) -> ConnModel {
        self.sends(
            FrameModel::GoAway {
                last_stream_id: self.streams.highest_peer,
                error_code: f.code,
                debug_data: encode_utf8(f.debug),
            },
        ).0
    }
}

} // verus!
