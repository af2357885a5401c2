//! What an upstream connection is, and what each step does to it.

use crate::conn::engine::{counted, numbered};
use crate::conn::{
    client_settings_of, default_settings, fault, settings_applied, ErrorCode, Fault, Settings,
    Tuning, MAX_HEADER_LIST_SIZE,
};
use crate::flow::{bootstrap_of, RecvWindow, Window, MAX_WINDOW_SIZE};
use crate::frame::{encoded, taken, DecodedModel, FrameModel, FrameType};
use crate::hpack::{DecoderModel, DynModel, EncoderModel, HeaderModel, HpackFault};
use crate::sched::{
    lemma_marked_dom, marked, ring_without, still_live, taken_front, visit_budget,
};
use crate::service::{
    are_trailers, is_response, request_headers, response_of, EventModel, RequestModel,
    ResponseModel,
};
use crate::stream::{
    low31, total_len, StreamEvent, StreamModel, TableModel,
};
use crate::upstream::probe::{later, ActionModel, ProbeModel};
use vstd::prelude::*;
use vstd::utf8::encode_utf8;

verus! {

/// The largest compressed header block reassembled from a backend, the same
/// bound the client side applies to a client.
pub const MAX_HEADER_BLOCK_BYTES: usize = 65_536;

/// How much may be queued for the socket before the scheduler stops adding to
/// it: a backend that stops reading must not turn its windows into memory.
pub const MAX_WRITE_QUEUE: usize = 1_048_576;

/// How long to let a backend finish the streams it promised after GOAWAY,
/// before giving up on them, in nanoseconds.
pub const PEER_DRAIN_DEADLINE: u64 = 10_000_000_000;

/// What one client stream is doing on this connection.
#[derive(Clone, Copy, Debug)]
pub struct Route {
    /// The stream id we gave the request.
    pub stream: u32,
    /// The id to address the client connection with. Every event we emit is
    /// translated into this id.
    pub client_id: u32,
    /// Which client connection is waiting.
    pub client: u64,
    /// What the pool and the client call this request.
    pub request: u32,
    /// Whether the response head has already gone to the client. Decides
    /// whether an inbound HEADERS is a response or a trailer section, and
    /// whether a failure can still be reported as a status.
    pub head_sent: bool,
    /// Response octets recorded against the connection window that the client
    /// has not confirmed yet. Handed back when the stream dies.
    pub pending_conn_release: u32,
}

/// A response that ended before its client had all of it.
#[derive(Clone, Copy, Debug)]
pub struct Ended {
    /// What the pool and the client call the request.
    pub request: u32,
    /// The client connection that asked.
    pub client: u64,
    /// Response octets that the client has not confirmed yet. The stream is
    /// over, but they are still held against the connection window.
    pub pending_conn_release: u32,
}

/// A request waiting for a stream slot.
#[verifier::ext_equal]
pub struct PendingModel {
    pub request: u32,
    pub client_id: u32,
    pub client: u64,
    pub head: RequestModel,
    pub end_stream: bool,
    pub body: Seq<(Seq<u8>, bool)>,
    pub trailers: Option<Seq<HeaderModel>>,
}

/// What the connection wants done outside it.
#[verifier::ext_equal]
pub enum EffectModel {
    /// An event for a client connection.
    Deliver { client: u64, event: EventModel },
    /// A stream opened here.
    StreamOpened,
    /// A stream ended here.
    StreamClosed,
    /// Response octets are held for a client.
    Buffered(u32),
    /// Response octets are no longer held.
    Unbuffered(u32),
    /// A probe went out.
    ProbeSent,
    /// No further request may be leased onto this connection.
    Retire,
    /// The backend's concurrency limit, as it announced it.
    MaxConcurrent(u32),
    /// The backend failed the request of a client stream: what it sent was no
    /// answer, or the answer it had begun was cut short. That is evidence
    /// against the backend, and comes before the event that tells the client.
    Failure { client: u64, id: u32 },
}

/// What a client connection asks.
#[verifier::ext_equal]
pub enum MessageModel {
    Request {
        id: u32,
        client_id: u32,
        client: u64,
        head: RequestModel,
        end_stream: bool,
    },
    Body { id: u32, data: Seq<u8>, end_stream: bool },
    Trailers { id: u32, fields: Seq<HeaderModel> },
    Released { id: u32, n: u32 },
    Cancel { id: u32, code: ErrorCode },
    Left { client: u64 },
}

/// What a finished upstream connection did.
#[derive(Clone, Copy, PartialEq, Eq, Debug, Default, Structural)]
pub struct UpstreamSummary {
    pub handshake_completed: bool,
    pub requests_sent: u64,
    pub responses_received: u64,
    pub streams_reset: u64,
    pub data_bytes_received: u64,
    /// PINGs sent to prove the backend was still there.
    pub probes_sent: u64,
    /// Set when a probe went unanswered and this connection was closed for it.
    pub probe_timed_out: bool,
}

/// What an upstream connection holds.
#[verifier::ext_equal]
pub struct UpModel {
    /// Octets read and not decoded yet.
    pub input: Seq<u8>,
    /// Octets to write to the backend.
    pub output: Seq<u8>,
    pub max_frame_size: u32,
    pub local: Settings,
    pub peer: Settings,
    pub open_block: Option<u32>,
    pub open_end: bool,
    pub header_block: Seq<u8>,
    pub dec: DecoderModel,
    pub enc: EncoderModel,
    pub streams: TableModel,
    pub send_window: Window,
    pub recv_window: RecvWindow,
    /// The size the receive window was opened to.
    pub conn_window: i32,
    pub ready: Seq<u32>,
    /// The client streams waiting on this connection, in the order their
    /// requests went out.
    pub routes: Seq<Route>,
    /// The responses that ended and are not all with their clients yet, in the
    /// order they ended.
    pub ended: Seq<Ended>,
    /// The pool's name for a request, and the stream id we gave it.
    pub requests: Map<u32, u32>,
    /// Requests cancelled before their HEADERS went out.
    pub cancelled: Set<u32>,
    /// Requests waiting for a stream slot, oldest first.
    pub pending: Seq<PendingModel>,
    /// The next id to open.
    pub next_stream_id: u32,
    /// Set once the backend has sent GOAWAY: the last id it promised to
    /// process, and when we stop waiting for those to finish.
    pub draining: Option<(u32, u64)>,
    pub probe: ProbeModel,
    pub effects: Seq<EffectModel>,
    pub summary: UpstreamSummary,
}

/// A connection after a step, and the fault that ends it, if there is one.
pub type UpOutcome = (UpModel, Option<Fault>);

/// A response without fields.
pub open spec fn bare(status: u16) -> ResponseModel {
    ResponseModel { status, fields: Seq::empty() }
}

/// Where the route of a stream is; the number of routes if it has none.
pub open spec fn route_at(routes: Seq<Route>, id: u32) -> nat
    decreases routes.len(),
{
    if routes.len() == 0 {
        0
    } else {
        let i = route_at(routes.drop_last(), id);
        if i < routes.len() - 1 {
            i
        } else if routes.last().stream == id {
            (routes.len() - 1) as nat
        } else {
            routes.len()
        }
    }
}

/// The route of a stream.
pub open spec fn route_of(routes: Seq<Route>, id: u32) -> Option<Route> {
    let i = route_at(routes, id);
    if i < routes.len() {
        Some(routes[i as int])
    } else {
        None
    }
}

/// Where an ended response is; the number of ended responses if it is not among
/// them.
pub open spec fn ended_at(ended: Seq<Ended>, request: u32) -> nat
    decreases ended.len(),
{
    if ended.len() == 0 {
        0
    } else {
        let i = ended_at(ended.drop_last(), request);
        if i < ended.len() - 1 {
            i
        } else if ended.last().request == request {
            (ended.len() - 1) as nat
        } else {
            ended.len()
        }
    }
}

/// Where the first ended response of a client is; the number of ended responses
/// if it has none.
pub open spec fn ended_for(ended: Seq<Ended>, client: u64) -> nat
    decreases ended.len(),
{
    if ended.len() == 0 {
        0
    } else {
        let i = ended_for(ended.drop_last(), client);
        if i < ended.len() - 1 {
            i
        } else if ended.last().client == client {
            (ended.len() - 1) as nat
        } else {
            ended.len()
        }
    }
}

/// What becomes of the ended responses when the connection dies.
pub open spec fn ended_freed(ended: Seq<Ended>) -> Seq<EffectModel> {
    Seq::new(ended.len(), |i: int| EffectModel::Unbuffered(ended[i].pending_conn_release))
}

/// Where a request waits; the number of waiting requests if it does not.
pub open spec fn waiting_at(pending: Seq<PendingModel>, request: u32) -> nat
    decreases pending.len(),
{
    if pending.len() == 0 {
        0
    } else {
        let i = waiting_at(pending.drop_last(), request);
        if i < pending.len() - 1 {
            i
        } else if pending.last().request == request {
            (pending.len() - 1) as nat
        } else {
            pending.len()
        }
    }
}

/// The waiting requests but one.
pub open spec fn waiting_without(pending: Seq<PendingModel>, request: u32) -> Seq<PendingModel>
    decreases pending.len(),
{
    if pending.len() == 0 {
        Seq::empty()
    } else if pending.last().request == request {
        waiting_without(pending.drop_last(), request)
    } else {
        waiting_without(pending.drop_last(), request).push(pending.last())
    }
}

/// A send queue with the chunks of a body behind it; empty ones add nothing.
pub open spec fn queue_with(queue: Seq<Seq<u8>>, body: Seq<(Seq<u8>, bool)>) -> Seq<Seq<u8>>
    decreases body.len(),
{
    if body.len() == 0 {
        queue
    } else {
        let q = queue_with(queue, body.drop_last());
        if body.last().0.len() > 0 {
            q.push(body.last().0)
        } else {
            q
        }
    }
}

/// Whether a body ends the request.
pub open spec fn body_ends(body: Seq<(Seq<u8>, bool)>) -> bool {
    exists|i: int| 0 <= i < body.len() && (#[trigger] body[i]).1
}

/// What the waiting requests hear when none of them will be sent.
pub open spec fn pending_told(pending: Seq<PendingModel>, refused: bool) -> Seq<EffectModel>
    decreases pending.len(),
{
    if pending.len() == 0 {
        Seq::empty()
    } else {
        let p = pending.last();
        pending_told(pending.drop_last(), refused).push(
            EffectModel::Deliver {
                client: p.client,
                event: if refused {
                    EventModel::Reset { id: p.client_id, code: ErrorCode::RefusedStream }
                } else {
                    EventModel::Gone { id: p.client_id }
                },
            },
        )
    }
}

/// What becomes of a route when its connection dies.
pub open spec fn route_lost(r: Route) -> Seq<EffectModel> {
    let closed = seq![EffectModel::StreamClosed];
    let freed = if r.pending_conn_release > 0 {
        closed.push(EffectModel::Unbuffered(r.pending_conn_release))
    } else {
        closed
    };
    if r.head_sent {
        freed.push(EffectModel::Failure { client: r.client, id: r.client_id }).push(
            EffectModel::Deliver {
                client: r.client,
                event: EventModel::Reset { id: r.client_id, code: ErrorCode::InternalError },
            },
        )
    } else {
        freed.push(
            EffectModel::Deliver {
                client: r.client,
                event: EventModel::Gone { id: r.client_id },
            },
        )
    }
}

/// What becomes of every route when the connection dies.
pub open spec fn routes_lost(routes: Seq<Route>) -> Seq<EffectModel>
    decreases routes.len(),
{
    if routes.len() == 0 {
        Seq::empty()
    } else {
        routes_lost(routes.drop_last()) + route_lost(routes.last())
    }
}

/// The streams of the routes above `last`, in order.
pub open spec fn above(routes: Seq<Route>, last: u32) -> Seq<u32>
    decreases routes.len(),
{
    if routes.len() == 0 {
        Seq::empty()
    } else if routes.last().stream > last {
        above(routes.drop_last(), last).push(routes.last().stream)
    } else {
        above(routes.drop_last(), last)
    }
}

impl UpModel {
    /// A connection nothing has happened on.
    pub open spec fn initial(t: Tuning) -> UpModel {
        let local = client_settings_of(t);
        let d = default_settings();
        UpModel {
            input: Seq::empty(),
            output: Seq::empty(),
            max_frame_size: local.max_frame_size,
            local,
            peer: d,
            open_block: None,
            open_end: false,
            header_block: Seq::empty(),
            dec: DecoderModel {
                table: DynModel { entries: Seq::empty(), max_size: local.header_table_size as nat },
                capacity: local.header_table_size as nat,
                limit: Some(MAX_HEADER_LIST_SIZE as usize),
            },
            enc: EncoderModel {
                table: DynModel { entries: Seq::empty(), max_size: d.header_table_size as nat },
                pending: None,
                huffman: true,
            },
            streams: TableModel {
                live: Map::empty(),
                highest_peer: 0,
                highest_local: 0,
                max_concurrent: u32::MAX,
                initial_send_window: d.initial_window_size as i32,
                initial_recv_window: local.initial_window_size as i32,
                peak: 0,
                opened_total: 0,
            },
            send_window: Window(d.initial_window_size as i32),
            recv_window: RecvWindow {
                window: Window(t.connection_window),
                unreleased: 0,
                initial: t.connection_window,
            },
            conn_window: t.connection_window,
            ready: Seq::empty(),
            routes: Seq::empty(),
            ended: Seq::empty(),
            requests: Map::empty(),
            cancelled: Set::empty(),
            pending: Seq::empty(),
            next_stream_id: 1,
            draining: None,
            probe: ProbeModel::fresh(0, 0, 0),
            effects: Seq::empty(),
            summary: UpstreamSummary {
                handshake_completed: false,
                requests_sent: 0,
                responses_received: 0,
                streams_reset: 0,
                data_bytes_received: 0,
                probes_sent: 0,
                probe_timed_out: false,
            },
        }
    }

    /// Something is asked of the outside.
    pub open spec fn emits(self, e: EffectModel) -> UpModel {
        UpModel { effects: self.effects.push(e), ..self }
    }

    /// A client hears something.
    pub open spec fn tells(self, client: u64, event: EventModel) -> UpModel {
        self.emits(EffectModel::Deliver { client, event })
    }

    /// A frame is queued for the backend. One that cannot be written is an
    /// internal fault.
    #[verifier::opaque]
    pub open spec fn queues(self, f: FrameModel) -> UpOutcome {
        match encoded(f) {
            Ok(octets) => (UpModel { output: self.output + octets, ..self }, None),
            Err(e) => (
                self,
                Some(
                    fault(
                        ErrorCode::InternalError,
                        "could not encode "@ + f.kind().text() + ": "@ + e.text(),
                    ),
                ),
            ),
        }
    }

    /// A stream leaves the table and the ring.
    pub open spec fn without(self, id: u32) -> UpModel {
        UpModel {
            streams: self.streams.without(id),
            ready: ring_without(self.ready, id),
            ..self
        }
    }

    /// A stream is aborted.
    pub open spec fn resets(self, id: u32, code: ErrorCode) -> UpOutcome {
        self.without(id).queues(FrameModel::RstStream { stream_id: id, error_code: code })
    }

    /// A stream with work joins the ring, unless it is in it already.
    pub open spec fn enqueues(self, id: u32) -> UpModel {
        if self.streams.live.contains_key(id) {
            let s = self.streams.live[id];
            if s.queued || !s.wants_to_send() {
                self
            } else {
                UpModel {
                    streams: self.streams.with(id, StreamModel { queued: true, ..s }),
                    ready: self.ready.push(id),
                    ..self
                }
            }
        } else {
            self
        }
    }

    // ---- what clients ask for ----------------------------------------------

    /// A request is sent, or waits for a slot, or is refused.
    ///
    /// The stream id is chosen here and nowhere else, at the instant the
    /// HEADERS is queued, so ids reach the wire in increasing order.
    #[verifier::opaque]
    pub open spec fn sends_request(
        self,
        request: u32,
        client_id: u32,
        client: u64,
        head: RequestModel,
        end_stream: bool,
    ) -> UpOutcome {
        let refused = EventModel::Reset { id: client_id, code: ErrorCode::RefusedStream };
        if self.cancelled.contains(request) {
            (UpModel { cancelled: self.cancelled.remove(request), ..self }, None)
        } else if self.draining is Some {
            (self.tells(client, refused), None)
        } else if self.streams.live.len() >= self.streams.max_concurrent {
            (
                UpModel {
                    pending: self.pending.push(
                        PendingModel {
                            request,
                            client_id,
                            client,
                            head,
                            end_stream,
                            body: Seq::empty(),
                            trailers: None,
                        },
                    ),
                    ..self
                },
                None,
            )
        } else {
            let id = low31(self.next_stream_id);
            let (streams, rejection) = self.streams.locally_opens(id);
            let m = UpModel {
                next_stream_id: if self.next_stream_id > u32::MAX - 2 {
                    u32::MAX
                } else {
                    (self.next_stream_id + 2) as u32
                },
                streams,
                ..self
            };
            if rejection is Some {
                (m.tells(client, refused), None)
            } else {
                m.starts_request(id, request, client_id, client, head, end_stream)
            }
        }
    }

    /// The route of a freshly opened stream is set up and its HEADERS queued.
    #[verifier::opaque]
    pub open spec fn starts_request(
        self,
        id: u32,
        request: u32,
        client_id: u32,
        client: u64,
        head: RequestModel,
        end_stream: bool,
    ) -> UpOutcome {
        let (enc, block) = self.enc.encoded(request_headers(head));
        let m = UpModel {
            routes: self.routes.push(
                Route {
                    stream: id,
                    client_id,
                    client,
                    request,
                    head_sent: false,
                    pending_conn_release: 0,
                },
            ),
            requests: self.requests.insert(request, id),
            enc,
            ..self
        }.emits(EffectModel::StreamOpened);
        let (m, f) = m.queues(
            FrameModel::Headers { stream_id: id, block, end_stream, end_headers: true },
        );
        if f is Some {
            (m, f)
        } else {
            (
                UpModel {
                    streams: m.streams.applies(id, StreamEvent::SendHeaders { end_stream }).0,
                    summary: UpstreamSummary {
                        requests_sent: counted(m.summary.requests_sent, 1),
                        ..m.summary
                    },
                    ..m
                },
                None,
            )
        }
    }

    /// What arrived for a request while it waited follows it, in order.
    pub open spec fn loads(
        self,
        id: u32,
        body: Seq<(Seq<u8>, bool)>,
        trailers: Option<Seq<HeaderModel>>,
    ) -> UpModel {
        if self.streams.live.contains_key(id) {
            let s = self.streams.live[id];
            UpModel {
                streams: self.streams.with(
                    id,
                    StreamModel {
                        send_queue: queue_with(s.send_queue, body),
                        send_end_stream: s.send_end_stream || body_ends(body) || trailers is Some,
                        pending_trailers: if trailers is Some {
                            trailers
                        } else {
                            s.pending_trailers
                        },
                        ..s
                    },
                ),
                ..self
            }
        } else {
            self
        }
    }

    /// The oldest waiting request is taken up.
    #[verifier::opaque]
    pub open spec fn starts_oldest(self) -> UpOutcome {
        let p = self.pending[0];
        let m = UpModel { pending: self.pending.skip(1), ..self };
        let (m, f) = m.sends_request(p.request, p.client_id, p.client, p.head, p.end_stream);
        if f is Some || !m.requests.contains_key(p.request) {
            (m, f)
        } else {
            let id = m.requests[p.request];
            (m.loads(id, p.body, p.trailers).enqueues(id), None)
        }
    }

    /// As many waiting requests are started as there are slots for.
    pub open spec fn starts_pending(self) -> UpOutcome
        decreases self.pending.len(),
    {
        if self.streams.live.len() >= self.streams.max_concurrent || self.pending.len() == 0 {
            (self, None)
        } else {
            proof {
                lemma_starts_oldest_pending(self);
            }
            let (m, f) = self.starts_oldest();
            if f is Some {
                (m, f)
            } else {
                m.starts_pending()
            }
        }
    }

    /// Body octets for a request: queued on its stream, or behind it while it
    /// waits.
    #[verifier::opaque]
    pub open spec fn takes_body(self, request: u32, data: Seq<u8>, end_stream: bool) -> UpModel {
        if !self.requests.contains_key(request) {
            let i = waiting_at(self.pending, request);
            if i < self.pending.len() {
                let p = self.pending[i as int];
                UpModel {
                    pending: self.pending.update(
                        i as int,
                        PendingModel { body: p.body.push((data, end_stream)), ..p },
                    ),
                    ..self
                }
            } else {
                self
            }
        } else {
            let id = self.requests[request];
            if !self.streams.live.contains_key(id) {
                self
            } else {
                self.loads(id, seq![(data, end_stream)], None).enqueues(id)
            }
        }
    }

    /// A trailer section for a request, which ends it.
    #[verifier::opaque]
    pub open spec fn takes_request_trailers(
        self,
        request: u32,
        fields: Seq<HeaderModel>,
    ) -> UpModel {
        if !self.requests.contains_key(request) {
            let i = waiting_at(self.pending, request);
            if i < self.pending.len() {
                UpModel {
                    pending: self.pending.update(
                        i as int,
                        PendingModel { trailers: Some(fields), ..self.pending[i as int] },
                    ),
                    ..self
                }
            } else {
                self
            }
        } else {
            let id = self.requests[request];
            if !self.streams.live.contains_key(id) {
                self
            } else {
                self.loads(id, Seq::empty(), Some(fields)).enqueues(id)
            }
        }
    }

    /// Credit goes back to the backend at the connection level where enough has
    /// accumulated.
    pub open spec fn releases_conn(self, n: u32) -> UpOutcome {
        let (recv_window, due) = self.recv_window.released(n);
        let m = UpModel { recv_window, ..self };
        match due {
            Some(increment) => m.queues(FrameModel::WindowUpdate { stream_id: 0, increment }),
            None => (m, None),
        }
    }

    /// A stream's credit goes back to the backend.
    pub open spec fn releases_stream(self, id: u32, n: u32) -> UpOutcome {
        if !self.streams.live.contains_key(id) {
            (self, None)
        } else {
            let s = self.streams.live[id];
            let (recv_window, due) = s.recv_window.released(n);
            let m = UpModel {
                streams: self.streams.with(id, StreamModel { recv_window, ..s }),
                ..self
            };
            match due {
                Some(increment) => m.queues(FrameModel::WindowUpdate { stream_id: id, increment }),
                None => (m, None),
            }
        }
    }

    /// `n` octets of the response reached the client: the backend gets that
    /// much credit back, at both levels.
    #[verifier::opaque]
    pub open spec fn releases(self, id: u32, n: u32) -> UpOutcome {
        if n == 0 {
            (self, None)
        } else {
            let i = route_at(self.routes, id);
            let m = if i < self.routes.len() {
                let r = self.routes[i as int];
                UpModel {
                    routes: self.routes.update(
                        i as int,
                        Route {
                            pending_conn_release: if r.pending_conn_release >= n {
                                (r.pending_conn_release - n) as u32
                            } else {
                                0
                            },
                            ..r
                        },
                    ),
                    ..self
                }
            } else {
                self
            };
            let (m, f) = m.emits(EffectModel::Unbuffered(n)).releases_stream(id, n);
            if f is Some {
                (m, f)
            } else {
                m.releases_conn(n)
            }
        }
    }

    /// A stream's route is taken down: its connection credit goes back.
    #[verifier::opaque]
    pub open spec fn drops_route(self, id: u32) -> UpModel {
        let i = route_at(self.routes, id);
        if i < self.routes.len() {
            let r = self.routes[i as int];
            let m = UpModel {
                routes: self.routes.remove(i as int),
                requests: self.requests.remove(r.request),
                ..self
            }.emits(EffectModel::StreamClosed);
            if r.pending_conn_release > 0 {
                m.emits(EffectModel::Unbuffered(r.pending_conn_release)).releases_conn(
                    r.pending_conn_release,
                ).0
            } else {
                m
            }
        } else {
            self
        }
    }

    /// A stream's route is taken down because its response is complete: what the
    /// client has not confirmed yet stays on the books.
    #[verifier::opaque]
    pub open spec fn completes_route(self, id: u32) -> UpModel {
        let i = route_at(self.routes, id);
        if i < self.routes.len() {
            let r = self.routes[i as int];
            UpModel {
                routes: self.routes.remove(i as int),
                requests: self.requests.remove(r.request),
                ended: if r.pending_conn_release > 0 {
                    self.ended.push(
                        Ended {
                            request: r.request,
                            client: r.client,
                            pending_conn_release: r.pending_conn_release,
                        },
                    )
                } else {
                    self.ended
                },
                ..self
            }.emits(EffectModel::StreamClosed)
        } else {
            self
        }
    }

    /// A response is complete: its stream is over, and the slot it freed goes to
    /// whatever is waiting.
    #[verifier::opaque]
    pub open spec fn completes(self, id: u32) -> UpModel {
        self.without(id).completes_route(id).starts_pending().0
    }

    /// Up to `n` octets of an ended response are off the books, and the backend
    /// gets that much connection credit back.
    #[verifier::opaque]
    pub open spec fn settles(self, request: u32, n: u32) -> UpOutcome {
        let i = ended_at(self.ended, request);
        if i >= self.ended.len() || n == 0 {
            (self, None)
        } else {
            self.settles_at(i as int, n)
        }
    }

    /// Up to `n` octets of the ended response at `i` are off the books.
    #[verifier::opaque]
    pub open spec fn settles_at(self, i: int, n: u32) -> UpOutcome {
        let e = self.ended[i];
        let owed = e.pending_conn_release;
        let m = if n >= owed {
            UpModel { ended: self.ended.remove(i), ..self }
        } else {
            UpModel {
                ended: self.ended.update(
                    i,
                    Ended { pending_conn_release: (owed - n) as u32, ..e },
                ),
                ..self
            }
        };
        let back = if n >= owed {
            owed
        } else {
            n
        };
        m.emits(EffectModel::Unbuffered(back)).releases_conn(back)
    }

    /// A client connection is gone: nobody will confirm what its ended responses
    /// still hold, so it is off the books at once. Its streams that are not over
    /// run on.
    pub open spec fn departs(self, client: u64) -> UpOutcome
        decreases self.ended.len(),
    {
        let i = ended_for(self.ended, client);
        if i >= self.ended.len() {
            (self, None)
        } else {
            proof {
                lemma_settles_all_at(self, i as int);
            }
            let (m, f) = self.settles_at(i as int, u32::MAX);
            if f is Some {
                (m, f)
            } else {
                m.departs(client)
            }
        }
    }

    /// A stream is forgotten: its credit goes back, and the slot it freed goes
    /// to whatever is waiting.
    #[verifier::opaque]
    pub open spec fn forgets(self, id: u32) -> UpModel {
        self.without(id).drops_route(id).starts_pending().0
    }

    /// The client abandoned a request. Where the response has ended, all that is
    /// left to give up is what the client did not take.
    #[verifier::opaque]
    pub open spec fn cancels(self, request: u32, code: ErrorCode) -> UpOutcome {
        if !self.requests.contains_key(request) && ended_at(self.ended, request)
            < self.ended.len() {
            self.settles(request, u32::MAX)
        } else if !self.requests.contains_key(request) {
            (
                UpModel {
                    pending: waiting_without(self.pending, request),
                    cancelled: self.cancelled.insert(request),
                    ..self
                },
                None,
            )
        } else {
            let id = self.requests[request];
            if self.streams.live.contains_key(id) {
                let m = UpModel {
                    summary: UpstreamSummary {
                        streams_reset: counted(self.summary.streams_reset, 1),
                        ..self.summary
                    },
                    ..self
                };
                let (m, f) = m.resets(id, code);
                if f is Some {
                    (m, f)
                } else {
                    (m.forgets(id), None)
                }
            } else {
                (self.forgets(id), None)
            }
        }
    }

    /// What a client asked for is done.
    pub open spec fn hears(self, msg: MessageModel) -> UpOutcome {
        match msg {
            MessageModel::Request { id, client_id, client, head, end_stream } => self.sends_request(
                id,
                client_id,
                client,
                head,
                end_stream,
            ),
            MessageModel::Body { id, data, end_stream } => (
                self.takes_body(id, data, end_stream),
                None,
            ),
            MessageModel::Trailers { id, fields } => (
                self.takes_request_trailers(id, fields),
                None,
            ),
            MessageModel::Released { id, n } => if self.requests.contains_key(id) {
                self.releases(self.requests[id], n)
            } else {
                self.settles(id, n)
            },
            MessageModel::Cancel { id, code } => self.cancels(id, code),
            MessageModel::Left { client } => self.departs(client),
        }
    }

    // ---- what the backend says ---------------------------------------------

    /// One client is answered 502 because the backend could not; only an abort is
    /// left once the head has been forwarded. Either way the failure is reported
    /// first.
    pub open spec fn reports_failure(self, id: u32) -> UpModel {
        match route_of(self.routes, id) {
            None => self,
            Some(r) => self.emits(
                EffectModel::Failure { client: r.client, id: r.client_id },
            ).tells(
                r.client,
                if r.head_sent {
                    EventModel::Reset { id: r.client_id, code: ErrorCode::InternalError }
                } else {
                    EventModel::Head { id: r.client_id, response: bare(502), end_stream: true }
                },
            ),
        }
    }

    /// A stream the backend broke is reported, aborted and forgotten.
    #[verifier::opaque]
    pub open spec fn fails_stream(self, id: u32) -> UpOutcome {
        let m = self.reports_failure(id);
        if m.streams.live.contains_key(id) {
            let (m, f) = m.resets(id, ErrorCode::Cancel);
            if f is Some {
                (m, f)
            } else {
                (m.forgets(id), None)
            }
        } else {
            (m.forgets(id), None)
        }
    }

    /// A stream on which the backend broke a rule is aborted with the code of
    /// that rule, and its client hears of it.
    #[verifier::opaque]
    pub open spec fn breaks(self, id: u32, code: ErrorCode) -> UpOutcome {
        let (m, f) = self.resets(id, code);
        if f is Some {
            (m, f)
        } else {
            m.fails_stream(id)
        }
    }

    /// An event goes through a stream's state machine. An event on a stream
    /// that was never opened is a connection fault; any other illegal event
    /// fails the stream.
    #[verifier::opaque]
    pub open spec fn advances(self, id: u32, event: StreamEvent) -> UpOutcome {
        let (streams, r) = self.streams.applies(id, event);
        let m = UpModel { streams, ..self };
        match r {
            Ok(state) => (
                if state is Closed {
                    UpModel { ready: ring_without(m.ready, id), ..m }
                } else {
                    m
                },
                None,
            ),
            Err(code) => if code == ErrorCode::ProtocolError {
                (
                    m,
                    Some(
                        fault(
                            ErrorCode::ProtocolError,
                            numbered("frame for upstream stream "@, id, ", which is idle"@),
                        ),
                    ),
                )
            } else {
                m.fails_stream(id)
            },
        }
    }

    /// The stream moves on, and is over where the backend ended it.
    #[verifier::opaque]
    pub open spec fn advances_to_end(self, id: u32, event: StreamEvent, end: bool) -> UpOutcome {
        let (m, f) = self.advances(id, event);
        if f is None && end {
            (m.completes(id), None)
        } else {
            (m, f)
        }
    }

    /// A complete field section arrived: a response head, or a trailer section
    /// if one was already forwarded. Trailers end the response (§8.1), and a
    /// preview never does.
    #[verifier::opaque]
    pub open spec fn takes_response(
        self,
        id: u32,
        fields: Seq<HeaderModel>,
        end_stream: bool,
    ) -> UpOutcome {
        let i = route_at(self.routes, id);
        if !self.streams.live.contains_key(id) && !self.streams.seen(id) {
            (
                self,
                Some(
                    fault(
                        ErrorCode::ProtocolError,
                        numbered("HEADERS on stream "@, id, ", which we never opened"@),
                    ),
                ),
            )
        } else if i >= self.routes.len() {
            // Cancelled while in flight.
            (self, None)
        } else {
            let r = self.routes[i as int];
            if r.head_sent {
                if end_stream && are_trailers(fields) {
                    self.tells(
                        r.client,
                        EventModel::Trailers { id: r.client_id, fields },
                    ).advances_to_end(id, StreamEvent::RecvHeaders { end_stream }, end_stream)
                } else {
                    self.fails_stream(id)
                }
            } else if !is_response(fields) {
                self.fails_stream(id)
            } else {
                let response = response_of(fields);
                if 100 <= response.status < 200 {
                    if end_stream {
                        self.fails_stream(id)
                    } else {
                        self.advances(id, StreamEvent::RecvHeaders { end_stream: false })
                    }
                } else {
                    let m = UpModel {
                        routes: self.routes.update(i as int, Route { head_sent: true, ..r }),
                        ..self
                    }.tells(
                        r.client,
                        EventModel::Head { id: r.client_id, response, end_stream },
                    );
                    UpModel {
                        summary: UpstreamSummary {
                            responses_received: counted(m.summary.responses_received, 1),
                            ..m.summary
                        },
                        ..m
                    }.advances_to_end(id, StreamEvent::RecvHeaders { end_stream }, end_stream)
                }
            }
        }
    }

    /// One fragment of a header block.
    #[verifier::opaque]
    pub open spec fn takes_fragment(
        self,
        id: u32,
        fragment: Seq<u8>,
        end_headers: bool,
    ) -> UpOutcome {
        if self.header_block.len() + fragment.len() > MAX_HEADER_BLOCK_BYTES {
            (
                UpModel { header_block: Seq::empty(), ..self },
                Some(fault(ErrorCode::EnhanceYourCalm, "backend header block too large"@)),
            )
        } else if !end_headers {
            (UpModel { header_block: self.header_block + fragment, ..self }, None)
        } else {
            let (dec, r) = self.dec.decoded(self.header_block + fragment);
            let m = UpModel { dec, header_block: Seq::empty(), ..self };
            match r {
                Ok(fields) => m.takes_response(id, fields, m.open_end),
                Err(HpackFault::HeaderListTooLarge { .. }) => m.fails_stream(id),
                Err(e) => (m, Some(e.as_fault())),
            }
        }
    }

    /// Response octets: recorded, forwarded, and not released.
    #[verifier::opaque]
    pub open spec fn takes_data(self, id: u32, data: Seq<u8>, end_stream: bool) -> UpOutcome {
        let len = data.len() as u32;
        if len > self.recv_window.window.0 {
            (
                self,
                Some(
                    fault(
                        ErrorCode::FlowControlError,
                        "backend exceeded the connection flow-control window"@,
                    ),
                ),
            )
        } else {
            let m = UpModel {
                recv_window: RecvWindow {
                    window: Window((self.recv_window.window.0 - len) as i32),
                    ..self.recv_window
                },
                ..self
            };
            if !m.streams.live.contains_key(id) {
                if m.streams.seen(id) {
                    // Nothing will ever accept these, so the credit goes back.
                    m.releases_conn(len)
                } else {
                    (
                        m,
                        Some(
                            fault(
                                ErrorCode::ProtocolError,
                                numbered("DATA on stream "@, id, ", which we never opened"@),
                            ),
                        ),
                    )
                }
            } else if len > m.streams.live[id].recv_window.window.0 {
                m.breaks(id, ErrorCode::FlowControlError)
            } else {
                m.forwards_data(id, data, end_stream)
            }
        }
    }

    /// Response octets within both windows.
    #[verifier::opaque]
    pub open spec fn forwards_data(self, id: u32, data: Seq<u8>, end_stream: bool) -> UpOutcome {
        let len = data.len() as u32;
        let s = self.streams.live[id];
        let m = UpModel {
            streams: self.streams.with(
                id,
                StreamModel {
                    recv_window: RecvWindow {
                        window: Window((s.recv_window.window.0 - len) as i32),
                        ..s.recv_window
                    },
                    ..s
                },
            ),
            summary: UpstreamSummary {
                data_bytes_received: counted(self.summary.data_bytes_received, len as int),
                ..self.summary
            },
            ..self
        };
        let i = route_at(m.routes, id);
        let m = if i < m.routes.len() {
            let r = m.routes[i as int];
            UpModel {
                routes: m.routes.update(
                    i as int,
                    Route {
                        pending_conn_release: if r.pending_conn_release + len > u32::MAX {
                            u32::MAX
                        } else {
                            (r.pending_conn_release + len) as u32
                        },
                        ..r
                    },
                ),
                ..m
            }.emits(EffectModel::Buffered(len)).tells(
                r.client,
                EventModel::Data { id: r.client_id, data, end_stream },
            )
        } else {
            m
        };
        m.advances_to_end(id, StreamEvent::RecvData { end_stream }, end_stream)
    }

    /// Credit for a send window (§6.9).
    #[verifier::opaque]
    pub open spec fn takes_credit(self, id: u32, increment: u32) -> UpOutcome {
        if increment == 0 {
            if id == 0 {
                (
                    self,
                    Some(
                        fault(
                            ErrorCode::ProtocolError,
                            "WINDOW_UPDATE with a zero increment on stream 0"@,
                        ),
                    ),
                )
            } else {
                self.breaks(id, ErrorCode::ProtocolError)
            }
        } else if id == 0 {
            if self.send_window.0 + increment > MAX_WINDOW_SIZE {
                (
                    self,
                    Some(
                        fault(
                            ErrorCode::FlowControlError,
                            "WINDOW_UPDATE overflows the connection window"@,
                        ),
                    ),
                )
            } else {
                (
                    UpModel {
                        send_window: Window((self.send_window.0 + increment) as i32),
                        ..self
                    },
                    None,
                )
            }
        } else if !self.streams.live.contains_key(id) {
            if self.streams.seen(id) {
                (self, None)
            } else {
                (
                    self,
                    Some(
                        fault(
                            ErrorCode::ProtocolError,
                            numbered("WINDOW_UPDATE on stream "@, id, ", which we never opened"@),
                        ),
                    ),
                )
            }
        } else {
            let s = self.streams.live[id];
            if s.send_window.0 + increment > MAX_WINDOW_SIZE {
                self.breaks(id, ErrorCode::FlowControlError)
            } else {
                (
                    UpModel {
                        streams: self.streams.with(
                            id,
                            StreamModel {
                                send_window: Window((s.send_window.0 + increment) as i32),
                                ..s
                            },
                        ),
                        ..self
                    }.enqueues(id),
                    None,
                )
            }
        }
    }

    /// The backend's SETTINGS: applied, obeyed, and acknowledged. Its
    /// concurrency limit is one we obey, and the pool hears of it.
    #[verifier::opaque]
    pub open spec fn takes_settings(self, params: Seq<(u16, u32)>) -> UpOutcome {
        let (peer, f) = settings_applied(self.peer, params);
        let m = UpModel { peer, ..self };
        match f {
            Some(f) => (m, Some(f)),
            None => {
                let m = UpModel { enc: m.enc.bounded(peer.header_table_size as nat), ..m };
                let m = match peer.max_concurrent_streams {
                    Some(max) => UpModel {
                        streams: TableModel { max_concurrent: max, ..m.streams },
                        ..m
                    }.emits(EffectModel::MaxConcurrent(max)),
                    None => m,
                };
                let delta = peer.initial_window_size - self.peer.initial_window_size;
                let (streams, r) = if delta != 0 {
                    m.streams.window_moved(delta as i32)
                } else {
                    (m.streams, Ok(()))
                };
                let m = UpModel { streams, ..m };
                match r {
                    Err(code) => (
                        m,
                        Some(fault(code, "INITIAL_WINDOW_SIZE change overflows"@)),
                    ),
                    Ok(()) => {
                        let (m, f) = m.queues(
                            FrameModel::Settings { ack: true, params: Seq::empty() },
                        );
                        (
                            UpModel {
                                summary: UpstreamSummary {
                                    handshake_completed: m.summary.handshake_completed || f is None,
                                    ..m.summary
                                },
                                ..m
                            },
                            f,
                        )
                    },
                }
            },
        }
    }

    /// Streams the backend will never process are refused, one after another.
    pub open spec fn abandons(self, ids: Seq<u32>) -> UpModel
        decreases ids.len(),
    {
        if ids.len() == 0 {
            self
        } else {
            let m = self.abandons(ids.drop_last());
            let m = match route_of(m.routes, ids.last()) {
                Some(r) => m.tells(
                    r.client,
                    EventModel::Reset { id: r.client_id, code: ErrorCode::RefusedStream },
                ),
                None => m,
            };
            m.forgets(ids.last())
        }
    }

    /// The backend is going away (§6.8). What it accepted may still complete;
    /// what it provably never started is refused, so it is safe to send
    /// elsewhere.
    #[verifier::opaque]
    pub open spec fn starts_drain(self, last: u32, now: u64) -> UpModel {
        let m = self.emits(EffectModel::Retire);
        let m = UpModel {
            draining: Some((last, later(now, PEER_DRAIN_DEADLINE))),
            pending: Seq::empty(),
            effects: m.effects + pending_told(m.pending, true),
            ..m
        };
        m.abandons(above(m.routes, last))
    }

    /// Whether a drain is finished: nothing left to wait for, or waited long
    /// enough.
    pub open spec fn drained(self, now: u64) -> bool {
        match self.draining {
            None => false,
            Some((_, deadline)) => self.routes.len() == 0 || now >= deadline,
        }
    }

    /// The connection is gone, and every client still waiting hears it.
    pub open spec fn fails_all(self) -> UpModel {
        UpModel {
            requests: Map::empty(),
            pending: Seq::empty(),
            routes: Seq::empty(),
            ended: Seq::empty(),
            effects: self.effects + pending_told(self.pending, false) + routes_lost(self.routes)
                + ended_freed(self.ended),
            ..self
        }
    }

    /// The backend reset a stream.
    #[verifier::opaque]
    pub open spec fn takes_reset(self, id: u32, code: ErrorCode) -> UpModel {
        let m = match route_of(self.routes, id) {
            Some(r) => UpModel {
                summary: UpstreamSummary {
                    streams_reset: counted(self.summary.streams_reset, 1),
                    ..self.summary
                },
                ..self
            }.tells(r.client, EventModel::Reset { id: r.client_id, code }),
            None => self,
        };
        m.forgets(id)
    }

    /// What the sequencing rule of §4.3 says of a frame.
    pub open spec fn sequence_fault(self, f: FrameModel) -> Option<Fault> {
        match self.open_block {
            Some(open) => if f is Continuation && f.stream() == open {
                None
            } else {
                Some(
                    fault(
                        ErrorCode::ProtocolError,
                        numbered("expected CONTINUATION on stream "@, open, ", got "@)
                            + f.kind().text(),
                    ),
                )
            },
            None => if f is Continuation {
                Some(fault(ErrorCode::ProtocolError, "CONTINUATION with no header block open"@))
            } else {
                None
            },
        }
    }

    /// The fault of an ignored frame that comes between a HEADERS and its
    /// CONTINUATION.
    pub open spec fn interrupted(self, open: u32, kind: FrameType, id: u32) -> Fault {
        fault(
            ErrorCode::ProtocolError,
            numbered("expected CONTINUATION on stream "@, open, ", got "@) + kind.text()
                + numbered(" on stream "@, id, ""@),
        )
    }

    /// What a frame does, sequencing aside.
    pub open spec fn acts_on(self, f: FrameModel, now: u64) -> UpOutcome {
        match f {
            FrameModel::Settings { ack, params } => if ack {
                (self, None)
            } else {
                self.takes_settings(params)
            },
            FrameModel::Ping { data, ack } => if ack {
                (
                    if self.probe.idle != 0 {
                        UpModel { probe: self.probe.after_ack(data, now).0, ..self }
                    } else {
                        self
                    },
                    None,
                )
            } else {
                self.queues(FrameModel::Ping { data, ack: true })
            },
            FrameModel::GoAway { last_stream_id, .. } => (
                self.starts_drain(last_stream_id, now),
                None,
            ),
            FrameModel::WindowUpdate { stream_id, increment } => self.takes_credit(
                stream_id,
                increment,
            ),
            FrameModel::Headers { stream_id, block, end_stream, end_headers } => UpModel {
                open_end: if self.open_block is None {
                    end_stream
                } else {
                    self.open_end
                },
                ..self
            }.takes_fragment(stream_id, block, end_headers),
            FrameModel::Continuation { stream_id, block, end_headers } => self.takes_fragment(
                stream_id,
                block,
                end_headers,
            ),
            FrameModel::Data { stream_id, data, end_stream } => self.takes_data(
                stream_id,
                data,
                end_stream,
            ),
            FrameModel::RstStream { stream_id, error_code } => (
                self.takes_reset(stream_id, error_code),
                None,
            ),
        }
    }

    /// Which header block is open after a frame.
    pub open spec fn block_after(self, f: FrameModel) -> Option<u32> {
        match f {
            FrameModel::Headers { stream_id, end_headers, .. } => if end_headers {
                None
            } else {
                Some(stream_id)
            },
            FrameModel::Continuation { stream_id, end_headers, .. } => if end_headers {
                None
            } else {
                Some(stream_id)
            },
            _ => self.open_block,
        }
    }

    /// What one decoded frame does.
    pub open spec fn handles(self, f: FrameModel, now: u64) -> UpOutcome {
        match self.sequence_fault(f) {
            Some(why) => (self, Some(why)),
            None => {
                let (m, why) = self.acts_on(f, now);
                match why {
                    Some(why) => (m, Some(why)),
                    None => (UpModel { open_block: m.block_after(f), ..m }, None),
                }
            },
        }
    }

    /// One thing taken off the wire.
    pub open spec fn takes(self, d: DecodedModel, now: u64) -> UpOutcome {
        match d {
            DecodedModel::Ignored { kind, stream_id } => match self.open_block {
                Some(open) => (self, Some(self.interrupted(open, kind, stream_id))),
                None => (self, None),
            },
            DecodedModel::Frame(f) => self.handles(f, now),
        }
    }

    /// Every complete frame of the input is acted on, in order.
    pub open spec fn drains(self, now: u64) -> UpOutcome
        decreases self.input.len(),
    {
        let (r, rest) = taken(self.max_frame_size, self.input);
        let m = UpModel { input: rest, ..self };
        match r {
            Ok(None) => (m, None),
            Err(e) => (m, Some(fault(e.scope(), e.text()))),
            Ok(Some(d)) => {
                let (m, f) = m.takes(d, now);
                if f is None && m.input.len() < self.input.len() {
                    m.drains(now)
                } else {
                    (m, f)
                }
            },
        }
    }

    // ---- sending ------------------------------------------------------------

    /// One visit in the round-robin: at most one DATA frame and the trailers
    /// behind the last. `Some(more)` unless the stream is stalled.
    #[verifier::opaque]
    pub open spec fn visits(self, id: u32) -> (UpModel, Result<Option<bool>, Fault>) {
        if !self.streams.live.contains_key(id) {
            (self, Ok(Some(false)))
        } else {
            let s = StreamModel { queued: false, ..self.streams.live[id] };
            let most = visit_budget(s.send_window, self.send_window, self.peer.max_frame_size);
            if total_len(s.send_queue) > 0 && most == 0 {
                (UpModel { streams: self.streams.with(id, s), ..self }, Ok(None))
            } else {
                let (chunk, send_queue) = taken_front(s.send_queue, most);
                let drained = send_queue.len() == 0;
                let trailers = if drained {
                    s.pending_trailers
                } else {
                    None
                };
                let end_stream = drained && s.send_end_stream && trailers is None;
                let s = StreamModel {
                    send_queue,
                    pending_trailers: if drained {
                        None
                    } else {
                        s.pending_trailers
                    },
                    ..s
                };
                if chunk.len() == 0 && !end_stream && trailers is None {
                    (UpModel { streams: self.streams.with(id, s), ..self }, Ok(Some(false)))
                } else {
                    let s = StreamModel {
                        send_end_stream: s.send_end_stream && !end_stream && trailers is None,
                        send_window: Window((s.send_window.0 - chunk.len()) as i32),
                        ..s
                    };
                    UpModel {
                        streams: self.streams.with(id, s),
                        send_window: Window((self.send_window.0 - chunk.len()) as i32),
                        ..self
                    }.sends_chunk(id, chunk, end_stream, trailers)
                }
            }
        }
    }

    /// The DATA of a visit goes out, its credit already spent; the client may
    /// send that much more; and the trailers follow.
    #[verifier::opaque]
    pub open spec fn sends_chunk(
        self,
        id: u32,
        chunk: Seq<u8>,
        end_stream: bool,
        trailers: Option<Seq<HeaderModel>>,
    ) -> (UpModel, Result<Option<bool>, Fault>) {
        let (m, f) = if chunk.len() > 0 || end_stream {
            let (m, f) = self.queues(FrameModel::Data { stream_id: id, data: chunk, end_stream });
            if f is Some {
                (m, f)
            } else {
                m.advances(id, StreamEvent::SendData { end_stream })
            }
        } else {
            (self, None)
        };
        if let Some(f) = f {
            (m, Err(f))
        } else {
            let m = if chunk.len() > 0 && route_of(m.routes, id) is Some {
                let r = route_of(m.routes, id)->0;
                m.tells(
                    r.client,
                    EventModel::BodyAccepted { id: r.client_id, n: chunk.len() as u32 },
                )
            } else {
                m
            };
            let (m, f) = match trailers {
                Some(fields) => m.sends_trailers(id, fields),
                None => (m, None),
            };
            if let Some(f) = f {
                (m, Err(f))
            } else {
                (
                    m,
                    Ok(
                        Some(
                            m.streams.live.contains_key(id)
                                && m.streams.live[id].wants_to_send(),
                        ),
                    ),
                )
            }
        }
    }

    /// A trailer section ends the request.
    pub open spec fn sends_trailers(self, id: u32, fields: Seq<HeaderModel>) -> UpOutcome {
        let (enc, block) = self.enc.encoded(fields);
        let (m, f) = UpModel { enc, ..self }.queues(
            FrameModel::Headers { stream_id: id, block, end_stream: true, end_headers: true },
        );
        if f is Some {
            (m, f)
        } else {
            m.advances(id, StreamEvent::SendHeaders { end_stream: true })
        }
    }
}

/// A lap of the ring part of the way through.
#[verifier::ext_equal]
pub struct UpLap {
    pub conn: UpModel,
    /// The streams that had no window, in the order they were visited.
    pub stalled: Seq<u32>,
    /// The streams that have more to send, in the order they were visited.
    pub served: Seq<u32>,
    /// Whether any visit did something other than stall.
    pub wrote: bool,
    pub fault: Option<Fault>,
}

/// A lap visits each stream of the ring once, in order.
pub open spec fn up_lap(m: UpModel, ids: Seq<u32>) -> UpLap
    decreases ids.len(),
{
    if ids.len() == 0 {
        UpLap {
            conn: m,
            stalled: Seq::empty(),
            served: Seq::empty(),
            wrote: false,
            fault: None,
        }
    } else {
        let l = up_lap(m, ids.drop_last());
        let id = ids.last();
        if l.fault is Some {
            l
        } else {
            let (conn, r) = l.conn.visits(id);
            match r {
                Err(f) => UpLap { conn, fault: Some(f), ..l },
                Ok(None) => UpLap { conn, stalled: l.stalled.push(id), ..l },
                Ok(Some(more)) => UpLap {
                    conn,
                    served: if more {
                        l.served.push(id)
                    } else {
                        l.served
                    },
                    wrote: true,
                    ..l
                },
            }
        }
    }
}

/// The streams with an ending still to send: END_STREAM or trailers.
pub open spec fn up_ending(t: TableModel) -> Set<u32> {
    t.live.dom().filter(
        |id: u32| t.live[id].send_end_stream || t.live[id].pending_trailers is Some,
    )
}

impl UpModel {
    /// What visits can still use up: connection credit, and streams to end.
    pub open spec fn work_left(self) -> nat {
        self.send_window.spendable() + up_ending(self.streams).len()
    }

    /// One lap of the ring. Afterwards it holds the stalled streams first, in
    /// their order, then the served ones, then those that joined during the
    /// lap.
    pub open spec fn laps(self) -> UpLap {
        let l = up_lap(UpModel { ready: Seq::empty(), ..self }, self.ready);
        if l.fault is Some {
            l
        } else {
            let ring = l.stalled + l.served + l.conn.ready;
            UpLap {
                conn: UpModel {
                    streams: marked(l.conn.streams, ring),
                    ready: still_live(l.conn.streams, ring),
                    ..l.conn
                },
                ..l
            }
        }
    }

    /// As much queued DATA as the windows and the write queue allow is written,
    /// lap by lap.
    pub open spec fn pumps(self) -> UpOutcome
        decreases self.pending.len(), self.work_left(), self.ready.len(),
        when self.streams.live.dom().finite()
    {
        proof {
            lemma_laps_progress(self);
        }
        if self.ready.len() == 0 || self.output.len() >= MAX_WRITE_QUEUE {
            (self, None)
        } else {
            let l = self.laps();
            if l.fault is Some {
                (l.conn, l.fault)
            } else if !l.wrote {
                (l.conn, None)
            } else {
                l.conn.pumps()
            }
        }
    }

    // ---- the loop -----------------------------------------------------------

    /// Our half of the preface: 24 fixed octets, SETTINGS, and the stream-0
    /// WINDOW_UPDATE that raises the connection window.
    pub open spec fn starts(self) -> UpOutcome {
        let m = UpModel {
            output: self.output + encode_utf8(crate::conn::engine::PREFACE@),
            ..self
        };
        let (m, f) = m.queues(
            FrameModel::Settings { ack: false, params: crate::conn::advertised(m.local) },
        );
        if f is Some || bootstrap_of(m.conn_window) == 0 {
            (m, f)
        } else {
            m.queues(
                FrameModel::WindowUpdate { stream_id: 0, increment: bootstrap_of(m.conn_window) },
            )
        }
    }

    /// The probe timer fired: `Ok(false)` gives up on the connection.
    #[verifier::opaque]
    pub open spec fn probes(self, now: u64) -> (UpModel, Result<bool, Fault>) {
        let (probe, action) = self.probe.after_due(now);
        let m = UpModel { probe, ..self };
        match action {
            ActionModel::Nothing => (m, Ok(true)),
            ActionModel::Send(nonce) => {
                let (m, f) = m.queues(FrameModel::Ping { data: nonce, ack: false });
                match f {
                    Some(f) => (m, Err(f)),
                    None => (
                        UpModel {
                            summary: UpstreamSummary {
                                probes_sent: counted(m.summary.probes_sent, 1),
                                ..m.summary
                            },
                            ..m
                        }.emits(EffectModel::ProbeSent),
                        Ok(true),
                    ),
                }
            },
            ActionModel::Expired => (
                UpModel {
                    summary: UpstreamSummary { probe_timed_out: true, ..m.summary },
                    ..m
                }.emits(EffectModel::Retire),
                Ok(false),
            ),
        }
    }

    /// One turn of the loop between two waits: what arrived is acted on, what
    /// can be sent is queued. `Ok(false)` when a drain has finished.
    pub open spec fn turns(self, now: u64) -> (UpModel, Result<bool, Fault>) {
        let (m, f) = self.drains(now);
        if let Some(f) = f {
            (m, Err(f))
        } else {
            let (m, f) = m.pumps();
            match f {
                Some(f) => (m, Err(f)),
                None => (m, Ok(!m.drained(now))),
            }
        }
    }

    /// The connection broke: GOAWAY, naming the highest stream we opened.
    pub open spec fn fails(self, f: Fault) -> UpModel {
        self.queues(
            FrameModel::GoAway {
                last_stream_id: self.streams.highest_local,
                error_code: f.code,
                debug_data: encode_utf8(f.debug),
            },
        ).0
    }
}

// ---------------------------------------------------------------------------
// Why the recursions end
// ---------------------------------------------------------------------------

/// Queueing a frame adds to the output and changes nothing else.
pub proof fn lemma_queues(m: UpModel, f: FrameModel)
    ensures
        m.queues(f).0 == (UpModel { output: m.queues(f).0.output, ..m }),
{
    reveal(UpModel::queues);
}

/// An ended response that is settled in full is off the list.
pub proof fn lemma_settles_all_at(m: UpModel, i: int)
    requires
        0 <= i < m.ended.len(),
    ensures
        m.settles_at(i, u32::MAX).0.ended == m.ended.remove(i),
{
    reveal(UpModel::settles_at);
    reveal(UpModel::queues);
}

/// With a slot free, taking up the oldest request leaves one fewer waiting.
pub proof fn lemma_starts_oldest_pending(m: UpModel)
    requires
        m.pending.len() > 0,
        m.streams.live.len() < m.streams.max_concurrent,
    ensures
        m.starts_oldest().0.pending.len() == m.pending.len() - 1,
        m.starts_oldest().0.pending == m.pending.skip(1),
{
    reveal(UpModel::starts_oldest);
    reveal(UpModel::sends_request);
    reveal(UpModel::starts_request);
    reveal(UpModel::queues);
}

/// Starting what waits: nothing at all happens, or fewer are waiting.
pub proof fn lemma_starts_pending(m: UpModel)
    ensures
        m.starts_pending().0 == m || m.starts_pending().0.pending.len() < m.pending.len(),
        m.streams.live.dom().finite() ==> m.starts_pending().0.streams.live.dom().finite(),
        m.starts_pending().0.send_window == m.send_window,
    decreases m.pending.len(),
{
    if m.streams.live.len() < m.streams.max_concurrent && m.pending.len() > 0 {
        lemma_starts_oldest_pending(m);
        lemma_starts_oldest_streams(m);
        let (n, f) = m.starts_oldest();
        if f is None {
            lemma_starts_pending(n);
        }
    }
}

proof fn lemma_starts_oldest_streams(m: UpModel)
    requires
        m.pending.len() > 0,
    ensures
        m.streams.live.dom().finite() ==> m.starts_oldest().0.streams.live.dom().finite(),
        m.starts_oldest().0.send_window == m.send_window,
{
    reveal(UpModel::starts_oldest);
    reveal(UpModel::sends_request);
    reveal(UpModel::starts_request);
    reveal(UpModel::queues);
}

/// A step that may retire one stream, and start waiting requests in its slot:
/// either fewer wait, or all that changed is that streams left.
pub open spec fn shrinks(a: UpModel, b: UpModel) -> bool {
    &&& a.streams.live.dom().finite() ==> b.streams.live.dom().finite()
    &&& b.send_window.0 <= a.send_window.0
    &&& b.pending.len() <= a.pending.len()
    &&& b.pending.len() == a.pending.len() ==> {
        &&& b.ready.len() <= a.ready.len()
        &&& up_ending(b.streams).subset_of(up_ending(a.streams))
    }
}

pub proof fn lemma_ring_without_len(ring: Seq<u32>, id: u32)
    ensures
        ring_without(ring, id).len() <= ring.len(),
    decreases ring.len(),
{
    if ring.len() > 0 {
        lemma_ring_without_len(ring.drop_last(), id);
    }
}

pub proof fn lemma_drops_route(m: UpModel, id: u32)
    ensures
        m.drops_route(id).streams == m.streams,
        m.drops_route(id).send_window == m.send_window,
        m.drops_route(id).pending == m.pending,
        m.drops_route(id).ready == m.ready,
        m.drops_route(id).input == m.input,
        m.drops_route(id).max_frame_size == m.max_frame_size,
        m.drops_route(id).summary == m.summary,
        m.drops_route(id).cancelled == m.cancelled,
        m.drops_route(id).draining == m.draining,
        m.drops_route(id).next_stream_id == m.next_stream_id,
{
    reveal(UpModel::drops_route);
    reveal(UpModel::queues);
}

pub proof fn lemma_forgets_shrinks(m: UpModel, id: u32)
    ensures
        shrinks(m, m.forgets(id)),
{
    reveal(UpModel::forgets);
    let a = m.without(id);
    lemma_ring_without_len(m.ready, id);
    lemma_drops_route(a, id);
    lemma_starts_pending(a.drops_route(id));
}

pub proof fn lemma_fails_stream_shrinks(m: UpModel, id: u32)
    ensures
        shrinks(m, m.fails_stream(id).0),
{
    reveal(UpModel::fails_stream);
    let told = m.reports_failure(id);
    lemma_forgets_shrinks(told, id);
    if told.streams.live.contains_key(id) {
        lemma_queues(
            told.without(id),
            FrameModel::RstStream { stream_id: id, error_code: ErrorCode::Cancel },
        );
        lemma_ring_without_len(told.ready, id);
        let n = told.resets(id, ErrorCode::Cancel).0;
        lemma_forgets_shrinks(n, id);
    }
}

pub proof fn lemma_advances_shrinks(m: UpModel, id: u32, event: StreamEvent)
    ensures
        shrinks(m, m.advances(id, event).0),
{
    reveal(UpModel::advances);
    lemma_ring_without_len(m.ready, id);
    let (streams, r) = m.streams.applies(id, event);
    let n = UpModel { streams, ..m };
    if r is Err {
        lemma_fails_stream_shrinks(n, id);
    } else {
        assert(up_ending(streams).subset_of(up_ending(m.streams)));
    }
}

/// A visit shrinks the connection, and one that has more to send has spent
/// something.
proof fn lemma_visit_progress(m: UpModel, id: u32)
    requires
        m.streams.live.dom().finite(),
    ensures
        shrinks(m, m.visits(id).0),
        m.visits(id).1 == Ok::<Option<bool>, Fault>(Some(true)) && m.visits(id).0.pending.len()
            == m.pending.len() ==> m.visits(id).0.work_left() < m.work_left(),
{
    reveal(UpModel::visits);
    if m.streams.live.contains_key(id) {
        let s0 = m.streams.live[id];
        let s = StreamModel { queued: false, ..s0 };
        let most = visit_budget(s.send_window, m.send_window, m.peer.max_frame_size);
        let (chunk, send_queue) = taken_front(s.send_queue, most);
        let drained = send_queue.len() == 0;
        let trailers = if drained {
            s.pending_trailers
        } else {
            None
        };
        let end_stream = drained && s.send_end_stream && trailers is None;
        let s1 = StreamModel {
            send_queue,
            pending_trailers: if drained {
                None
            } else {
                s.pending_trailers
            },
            ..s
        };
        let s2 = StreamModel {
            send_end_stream: s1.send_end_stream && !end_stream && trailers is None,
            send_window: Window((s1.send_window.0 - chunk.len()) as i32),
            ..s1
        };
        let n = UpModel {
            streams: m.streams.with(id, s2),
            send_window: Window((m.send_window.0 - chunk.len()) as i32),
            ..m
        };
        assert(up_ending(m.streams.with(id, s)).subset_of(up_ending(m.streams)));
        assert(up_ending(m.streams.with(id, s1)).subset_of(up_ending(m.streams)));
        assert(up_ending(n.streams).subset_of(up_ending(m.streams)));
        if !(total_len(s.send_queue) > 0 && most == 0) && !(chunk.len() == 0 && !end_stream
            && trailers is None) {
            assert(chunk.len() <= m.send_window.spendable());
            lemma_sends_chunk_shrinks(n, id, chunk, end_stream, trailers);
            let after = m.visits(id).0;
            if after.pending.len() == m.pending.len() {
                vstd::set_lib::lemma_len_subset(up_ending(after.streams), up_ending(m.streams));
                if chunk.len() == 0 {
                    assert(up_ending(m.streams).contains(id));
                    assert(!up_ending(n.streams).contains(id));
                    assert(up_ending(after.streams).subset_of(up_ending(m.streams).remove(id)));
                    vstd::set_lib::lemma_len_subset(
                        up_ending(after.streams),
                        up_ending(m.streams).remove(id),
                    );
                }
            }
        }
    }
}

proof fn lemma_sends_chunk_shrinks(
    m: UpModel,
    id: u32,
    chunk: Seq<u8>,
    end_stream: bool,
    trailers: Option<Seq<HeaderModel>>,
)
    ensures
        shrinks(m, m.sends_chunk(id, chunk, end_stream, trailers).0),
{
    reveal(UpModel::sends_chunk);
    let data = FrameModel::Data { stream_id: id, data: chunk, end_stream };
    lemma_queues(m, data);
    let n1 = m.queues(data).0;
    lemma_advances_shrinks(n1, id, StreamEvent::SendData { end_stream });
    let (n2, f) = if chunk.len() > 0 || end_stream {
        if m.queues(data).1 is Some {
            m.queues(data)
        } else {
            n1.advances(id, StreamEvent::SendData { end_stream })
        }
    } else {
        (m, None)
    };
    assert(shrinks(m, n2));
    if f is None {
        let n3 = if chunk.len() > 0 && route_of(n2.routes, id) is Some {
            let r = route_of(n2.routes, id)->0;
            n2.tells(
                r.client,
                EventModel::BodyAccepted { id: r.client_id, n: chunk.len() as u32 },
            )
        } else {
            n2
        };
        assert(shrinks(m, n3));
        if let Some(fields) = trailers {
            let (enc, block) = n3.enc.encoded(fields);
            let n4 = UpModel { enc, ..n3 };
            let head = FrameModel::Headers {
                stream_id: id,
                block,
                end_stream: true,
                end_headers: true,
            };
            lemma_queues(n4, head);
            let n5 = n4.queues(head).0;
            let event = StreamEvent::SendHeaders { end_stream: true };
            lemma_advances_shrinks(n5, id, event);
            assert(shrinks(m, n5));
            lemma_shrinks_chains(m, n5, n5.advances(id, event).0);
        }
    }
}

proof fn lemma_shrinks_chains(a: UpModel, b: UpModel, c: UpModel)
    requires
        shrinks(a, b),
        shrinks(b, c),
    ensures
        shrinks(a, c),
{
}

proof fn lemma_lap_progress(m: UpModel, ids: Seq<u32>)
    requires
        m.streams.live.dom().finite(),
    ensures
        ({
            let l = up_lap(m, ids);
            &&& shrinks(m, l.conn)
            &&& l.stalled.len() + l.served.len() <= ids.len()
            &&& l.conn.pending.len() == m.pending.len() ==> {
                &&& l.conn.work_left() <= m.work_left()
                &&& l.served.len() > 0 ==> l.conn.work_left() < m.work_left()
                &&& l.fault is None && l.wrote && l.served.len() == 0 ==> l.stalled.len()
                    < ids.len()
            }
        }),
    decreases ids.len(),
{
    if ids.len() > 0 {
        let l = up_lap(m, ids.drop_last());
        lemma_lap_progress(m, ids.drop_last());
        if l.fault is None {
            lemma_visit_progress(l.conn, ids.last());
            let after = l.conn.visits(ids.last()).0;
            lemma_shrinks_chains(m, l.conn, after);
            if after.pending.len() == m.pending.len() {
                vstd::set_lib::lemma_len_subset(
                    up_ending(after.streams),
                    up_ending(l.conn.streams),
                );
            }
        }
    }
}

/// Marking streams as queued ends none of them.
proof fn lemma_marked_up_ending(t: TableModel, ring: Seq<u32>)
    ensures
        up_ending(marked(t, ring)) == up_ending(t),
        marked(t, ring).live.dom() == t.live.dom(),
    decreases ring.len(),
{
    lemma_marked_dom(t, ring);
    if ring.len() > 0 {
        lemma_marked_up_ending(t, ring.drop_last());
        assert(up_ending(marked(t, ring)) =~= up_ending(marked(t, ring.drop_last())));
    }
}

proof fn lemma_still_live_len(t: TableModel, ring: Seq<u32>)
    ensures
        still_live(t, ring).len() <= ring.len(),
    decreases ring.len(),
{
    if ring.len() > 0 {
        lemma_still_live_len(t, ring.drop_last());
    }
}

/// A lap that does something brings the pump closer to its end: fewer requests
/// wait, or less is left to send, or the ring is shorter.
pub proof fn lemma_laps_progress(m: UpModel)
    requires
        m.streams.live.dom().finite(),
    ensures
        m.laps().conn.streams.live.dom().finite(),
        m.laps().fault is None && m.laps().wrote ==> {
            let n = m.laps().conn;
            ||| n.pending.len() < m.pending.len()
            ||| n.pending.len() == m.pending.len() && n.work_left() < m.work_left()
            ||| n.pending.len() == m.pending.len() && n.work_left() == m.work_left()
                && n.ready.len() < m.ready.len()
        },
{
    let start = UpModel { ready: Seq::empty(), ..m };
    lemma_lap_progress(start, m.ready);
    let l = up_lap(start, m.ready);
    let ring = l.stalled + l.served + l.conn.ready;
    lemma_marked_up_ending(l.conn.streams, ring);
    lemma_still_live_len(l.conn.streams, ring);
}

} // verus!
