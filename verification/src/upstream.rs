//! The upstream leg: one HTTP/2 connection to a backend, where we are the
//! client.
//!
//! The mirror image of [`crate::conn`], built from the same parts. Only the role
//! differs, and the role is four things:
//!
//! 1. We send the preface. Our SETTINGS follows it rather than preceding it.
//! 2. The ids are ours, and this connection alone allocates them. Clients name
//!    their work with a [`RequestId`] and learn nothing about stream ids, because
//!    §5.1.1 requires ids to increase in the order they reach the wire, and
//!    several client connections sharing this one have no ordering between them.
//! 3. HEADERS mean the other thing: outbound a request, inbound a response or a
//!    trailer section.
//! 4. Nothing here decides anything. This module translates between two id spaces
//!    and two flow-control regimes.
//!
//! # The bridge
//!
//! This side never releases receive credit on its own initiative. Response octets
//! are recorded on arrival and forwarded; the credit is returned only when a
//! [`ToUpstream::Released`] says those octets reached the client, also where the
//! response has long ended, or when the stream died or the client left and nobody
//! will take them. A backend faster than the client therefore runs out of window and stops, with at
//! most one connection window of data held here. The request direction is the same
//! pointed the other way: the client's credit comes back through
//! [`ServiceEvent::BodyAccepted`] once we have spent our send window on it.
//!
//! The connection performs no I/O and reaches no other connection: what it wants
//! done outside is the list of [`Effect`]s it hands out.

pub mod bridge;
pub mod exchange;
pub mod laws;
pub mod model;
pub mod probe;
pub mod wire;

use crate::conn::engine::{numbered_text, text_bytes, PREFACE};
use crate::conn::{ConnectionError, ErrorCode, Fault, Settings, Tuning};
use crate::flow::{connection_window_bootstrap, RecvWindow, Window};
use crate::frame::{Decoded, Frame, FrameCodec, FrameType};
use crate::hpack::{clone_headers, headers_view, Header, HeaderModel, HpackDecoder, HpackEncoder, HpackError};
use crate::octets::{as_slice, as_slice_mut, buffered, octets, put_slice};
use crate::sched::{budget, rebuild_ring, remove_from_ring, take_from_queue};
use crate::service::{
    request_headers, validate_trailers, EventModel, RequestHead, Response, ResponseHead,
    ServiceEvent,
};
use crate::stream::{chunks, Lookup, StreamEvent, StreamId, StreamTable};
use crate::upstream::laws::lemma_handles_untouched;
use crate::upstream::model::{
    above, body_ends, ended_at, ended_for, ended_freed, lemma_laps_progress, lemma_queues,
    lemma_settles_all_at, lemma_starts_oldest_pending, pending_told, queue_with, route_at,
    route_lost, routes_lost, up_lap, waiting_at, waiting_without, EffectModel, Ended, MessageModel,
    PendingModel, Route, UpLap, UpModel, UpOutcome, UpstreamSummary, MAX_HEADER_BLOCK_BYTES,
    MAX_WRITE_QUEUE, PEER_DRAIN_DEADLINE,
};
use crate::upstream::probe::{Probe, ProbeAction, ProbeModel};
use bytes::{Bytes, BytesMut};
use std::collections::{HashMap, HashSet, VecDeque};
use vstd::prelude::*;
use vstd::string::StringExecFns;

verus! {

broadcast use vstd::std_specs::hash::group_hash_axioms;

/// Names one request on one upstream connection, from the moment the pool leases
/// a slot until the stream ends.
///
/// Deliberately not a stream id: the id does not exist until the connection sends
/// the HEADERS. A client can queue body octets behind a request the connection
/// has not looked at yet, and they still find their stream.
#[derive(Clone, Copy, PartialEq, Eq, Hash, Debug, PartialOrd, Ord, Structural)]
pub struct RequestId(pub u32);

impl RequestId {
    pub fn new(raw: u32) -> (id: Self)
        ensures
            id.0 == raw,
    {
        RequestId(raw)
    }

    pub fn get(self) -> (raw: u32)
        ensures
            raw == self.0,
    {
        self.0
    }
}

/// What a client connection asks of an upstream connection.
///
/// `id` is the [`RequestId`] the pool leased. Messages for one request always
/// arrive in order.
#[derive(Debug)]
pub enum ToUpstream {
    /// Start a request. The stream id is chosen when this is handled. `client`
    /// is what the caller calls the client connection that asks.
    Request {
        id: RequestId,
        client_id: StreamId,
        head: Box<RequestHead>,
        end_stream: bool,
        client: u64,
    },
    /// Request body octets.
    Body { id: RequestId, data: Bytes, end_stream: bool },
    /// A request trailer section, which ends the request.
    Trailers { id: RequestId, fields: Vec<Header> },
    /// `n` octets of the response reached the client, so the backend may send
    /// `n` more. The response-direction half of the bridge.
    Released { id: RequestId, n: u32 },
    /// The client abandoned this stream.
    Cancel { id: RequestId, code: ErrorCode },
    /// A client connection is gone, and will confirm nothing more.
    Left { client: u64 },
}

impl View for ToUpstream {
    type V = MessageModel;

    open spec fn view(&self) -> MessageModel {
        match self {
            ToUpstream::Request {
                id,
                client_id,
                head,
                end_stream,
                client,
            } => MessageModel::Request {
                id: id.0,
                client_id: client_id.value(),
                client: *client,
                head: head@,
                end_stream: *end_stream,
            },
            ToUpstream::Body { id, data, end_stream } => MessageModel::Body {
                id: id.0,
                data: octets(*data),
                end_stream: *end_stream,
            },
            ToUpstream::Trailers { id, fields } => MessageModel::Trailers {
                id: id.0,
                fields: headers_view(fields@),
            },
            ToUpstream::Released { id, n } => MessageModel::Released { id: id.0, n: *n },
            ToUpstream::Cancel { id, code } => MessageModel::Cancel { id: id.0, code: *code },
            ToUpstream::Left { client } => MessageModel::Left { client: *client },
        }
    }
}

/// What the connection wants done outside it, in order.
#[derive(Debug)]
pub enum Effect {
    /// An event for a client connection.
    Deliver { client: u64, event: ServiceEvent },
    /// A stream opened here.
    StreamOpened,
    /// A stream ended here.
    StreamClosed,
    /// Response octets are held for a client.
    Buffered(u32),
    /// Response octets are no longer held.
    Unbuffered(u32),
    /// A probe went out.
    ProbeSent,
    /// No further request may be leased onto this connection.
    Retire,
    /// The backend's concurrency limit, as it announced it.
    MaxConcurrent(u32),
    /// The backend failed the request of a client stream: what it sent was no
    /// answer, or the answer it had begun was cut short. That is evidence
    /// against the backend, and comes before the event that tells the client.
    Failure { client: u64, id: StreamId },
}

impl View for Effect {
    type V = EffectModel;

    open spec fn view(&self) -> EffectModel {
        match self {
            Effect::Deliver { client, event } => EffectModel::Deliver {
                client: *client,
                event: event@,
            },
            Effect::StreamOpened => EffectModel::StreamOpened,
            Effect::StreamClosed => EffectModel::StreamClosed,
            Effect::Buffered(n) => EffectModel::Buffered(*n),
            Effect::Unbuffered(n) => EffectModel::Unbuffered(*n),
            Effect::ProbeSent => EffectModel::ProbeSent,
            Effect::Retire => EffectModel::Retire,
            Effect::MaxConcurrent(n) => EffectModel::MaxConcurrent(*n),
            Effect::Failure { client, id } => EffectModel::Failure {
                client: *client,
                id: id.value(),
            },
        }
    }
}

/// The effects of a list.
pub open spec fn effects_view(list: Seq<Effect>) -> Seq<EffectModel> {
    Seq::new(list.len(), |i: int| list[i]@)
}

/// A request waiting for a stream slot on this connection.
///
/// The backend's `MAX_CONCURRENT_STREAMS` is a hard limit, and the alternative to
/// waiting for it is refusing the request, which turns a busy backend into
/// client-visible errors. Body octets that arrive meanwhile are held here, and
/// bounded by the client's own window: no `BodyAccepted` goes back until they are
/// sent.
#[derive(Debug)]
pub struct Pending {
    request: u32,
    client_id: StreamId,
    client: u64,
    head: Box<RequestHead>,
    end_stream: bool,
    body: Vec<(Bytes, bool)>,
    trailers: Option<Vec<Header>>,
}

/// The chunks of a held body.
pub open spec fn body_view(body: Seq<(Bytes, bool)>) -> Seq<(Seq<u8>, bool)> {
    Seq::new(body.len(), |i: int| (octets(body[i].0), body[i].1))
}

/// A trailer section, if there is one.
pub open spec fn trailers_view(trailers: Option<Vec<Header>>) -> Option<Seq<HeaderModel>> {
    match trailers {
        Some(fields) => Some(headers_view(fields@)),
        None => None,
    }
}

impl View for Pending {
    type V = PendingModel;

    closed spec fn view(&self) -> PendingModel {
        PendingModel {
            request: self.request,
            client_id: self.client_id.value(),
            client: self.client,
            head: self.head@,
            end_stream: self.end_stream,
            body: body_view(self.body@),
            trailers: trailers_view(self.trailers),
        }
    }
}

/// The waiting requests of a list.
pub open spec fn pending_view(list: Seq<Pending>) -> Seq<PendingModel> {
    Seq::new(list.len(), |i: int| list[i]@)
}

/// What woke the connection's loop.
#[derive(Debug)]
pub enum Wake {
    /// The deadline of a backend's drain.
    DrainDeadline,
    /// The probe timer.
    ProbeTimer,
    /// The socket took `n` of the octets offered.
    Wrote { n: usize },
    /// The socket takes no more.
    WriteClosed,
    /// A client asks for something.
    Message(ToUpstream),
    /// Every client is gone.
    Abandoned,
    /// The backend sent octets.
    Received(Bytes),
    /// The backend closed its side.
    ReadClosed,
}

/// What woke the loop, as values.
pub enum WakeModel {
    DrainDeadline,
    ProbeTimer,
    Wrote { n: usize },
    WriteClosed,
    Message(MessageModel),
    Abandoned,
    Received(Seq<u8>),
    ReadClosed,
}

impl View for Wake {
    type V = WakeModel;

    open spec fn view(&self) -> WakeModel {
        match self {
            Wake::DrainDeadline => WakeModel::DrainDeadline,
            Wake::ProbeTimer => WakeModel::ProbeTimer,
            Wake::Wrote { n } => WakeModel::Wrote { n: *n },
            Wake::WriteClosed => WakeModel::WriteClosed,
            Wake::Message(m) => WakeModel::Message(m@),
            Wake::Abandoned => WakeModel::Abandoned,
            Wake::Received(b) => WakeModel::Received(octets(*b)),
            Wake::ReadClosed => WakeModel::ReadClosed,
        }
    }
}

impl UpModel {
    /// What a wake-up does: `Ok(false)` ends the connection quietly.
    pub open spec fn wakes(self, w: WakeModel, now: u64) -> (UpModel, Result<bool, Fault>) {
        match w {
            WakeModel::DrainDeadline => (self, Ok(true)),
            WakeModel::ProbeTimer => self.probes(now),
            WakeModel::Wrote { n } => if n == 0 {
                (self, Ok(false))
            } else {
                (
                    UpModel {
                        output: if n < self.output.len() {
                            self.output.skip(n as int)
                        } else {
                            Seq::empty()
                        },
                        ..self
                    },
                    Ok(true),
                )
            },
            WakeModel::WriteClosed => (self, Ok(false)),
            WakeModel::Message(msg) => {
                let (m, f) = self.hears(msg);
                (
                    m,
                    match f {
                        Some(f) => Err(f),
                        None => Ok(true),
                    },
                )
            },
            WakeModel::Abandoned => (self, Ok(false)),
            WakeModel::Received(data) => if data.len() == 0 {
                (self, Ok(false))
            } else {
                (
                    UpModel {
                        input: self.input + data,
                        probe: ProbeModel { last_heard: now, ..self.probe },
                        ..self
                    },
                    Ok(true),
                )
            },
            WakeModel::ReadClosed => (self, Ok(false)),
        }
    }
}

/// What a client hears whose message reached a connection that is gone.
pub fn answer_to_undeliverable(msg: &ToUpstream) -> (r: Option<Effect>)
    ensures
        msg@ matches MessageModel::Request { client, client_id, .. } ==> r is Some && r->0@ == (
        EffectModel::Deliver { client, event: EventModel::Gone { id: client_id } }),
        !(msg@ is Request) ==> r is None,
{
    match msg {
        ToUpstream::Request { client_id, client, .. } => Some(
            Effect::Deliver { client: *client, event: ServiceEvent::Gone { id: *client_id } },
        ),
        _ => None,
    }
}

/// A step ended as expected.
pub open spec fn up_ends_as(
    expected: UpOutcome,
    m: UpModel,
    r: Result<(), ConnectionError>,
) -> bool {
    &&& m == expected.0
    &&& match r {
        Ok(()) => expected.1 is None,
        Err(e) => expected.1 == Some(e@),
    }
}

/// A step that also says whether to go on ended as expected.
pub open spec fn up_goes_as(
    expected: (UpModel, Result<bool, Fault>),
    m: UpModel,
    r: Result<bool, ConnectionError>,
) -> bool {
    &&& m == expected.0
    &&& match r {
        Ok(b) => expected.1 == Ok::<bool, Fault>(b),
        Err(e) => expected.1 == Err::<bool, Fault>(e@),
    }
}

/// One HTTP/2 connection to a backend.
pub struct UpstreamConnection {
    out: BytesMut,
    read_buf: BytesMut,
    codec: FrameCodec,
    local_settings: Settings,
    peer_settings: Settings,
    open_header_block: Option<StreamId>,
    open_header_end_stream: bool,
    header_block: BytesMut,
    hpack_dec: HpackDecoder,
    hpack_enc: HpackEncoder,
    streams: StreamTable,
    conn_send_window: Window,
    conn_recv_window: RecvWindow,
    conn_window: i32,
    ready: VecDeque<u32>,
    /// The client streams waiting on this connection, in the order their
    /// requests went out.
    routes: Vec<Route>,
    /// The responses that ended and are not all with their clients yet.
    ended: Vec<Ended>,
    /// The pool's name for a request, and the stream id we gave it. The only
    /// place the two id spaces meet.
    requests: HashMap<u32, u32>,
    /// Requests cancelled before their HEADERS went out.
    cancelled: HashSet<u32>,
    /// Requests waiting for a stream slot, oldest first.
    pending: Vec<Pending>,
    /// The next id to open. Odd and strictly increasing (§5.1.1).
    next_stream_id: u32,
    /// Set when the backend has sent GOAWAY: the last id it promised to
    /// process, and when we stop waiting for those to finish.
    peer_draining: Option<(StreamId, u64)>,
    /// Active liveness probing. Off unless the pool turned it on.
    probe: Probe,
    effects: Vec<Effect>,
    summary: UpstreamSummary,
}

impl View for UpstreamConnection {
    type V = UpModel;

    closed spec fn view(&self) -> UpModel {
        UpModel {
            input: buffered(self.read_buf),
            output: buffered(self.out),
            max_frame_size: self.codec.max_frame_size,
            local: self.local_settings,
            peer: self.peer_settings,
            open_block: match self.open_header_block {
                Some(id) => Some(id.value()),
                None => None,
            },
            open_end: self.open_header_end_stream,
            header_block: buffered(self.header_block),
            dec: self.hpack_dec@,
            enc: self.hpack_enc@,
            streams: self.streams@,
            send_window: self.conn_send_window,
            recv_window: self.conn_recv_window,
            conn_window: self.conn_window,
            ready: self.ready@,
            routes: self.routes@,
            ended: self.ended@,
            requests: self.requests@,
            cancelled: self.cancelled@,
            pending: pending_view(self.pending@),
            next_stream_id: self.next_stream_id,
            draining: match self.peer_draining {
                Some((id, at)) => Some((id.value(), at)),
                None => None,
            },
            probe: self.probe@,
            effects: effects_view(self.effects@),
            summary: self.summary,
        }
    }
}

/// Where the route of a stream is; the number of routes if it has none.
fn find_route(routes: &Vec<Route>, id: u32) -> (i: usize)
    ensures
        i == route_at(routes@, id),
        i <= routes@.len(),
        i < routes@.len() ==> routes@[i as int].stream == id,
{
    let mut i: usize = 0;
    assert(routes@.take(0) =~= Seq::empty());
    while i < routes.len()
        invariant
            i <= routes@.len(),
            route_at(routes@.take(i as int), id) == i,
        decreases routes@.len() - i,
    {
        assert(routes@.take(i + 1).drop_last() =~= routes@.take(i as int));
        if routes[i].stream == id {
            proof {
                lemma_route_found(routes@, id, i as int + 1);
            }
            return i;
        }
        i += 1;
    }
    assert(routes@.take(i as int) =~= routes@);
    i
}

/// A route found among the first is the one found among all.
proof fn lemma_route_found(routes: Seq<Route>, id: u32, k: int)
    requires
        0 <= k <= routes.len(),
        route_at(routes.take(k), id) < k,
    ensures
        route_at(routes, id) == route_at(routes.take(k), id),
    decreases routes.len(),
{
    if k < routes.len() {
        assert(routes.drop_last().take(k) =~= routes.take(k));
        lemma_route_found(routes.drop_last(), id, k);
    } else {
        assert(routes.take(k) =~= routes);
    }
}

/// Where an ended response is; the number of ended responses if it is not among
/// them.
fn find_ended(ended: &Vec<Ended>, request: u32) -> (i: usize)
    ensures
        i == ended_at(ended@, request),
        i <= ended@.len(),
        i < ended@.len() ==> ended@[i as int].request == request,
{
    let mut i: usize = 0;
    assert(ended@.take(0) =~= Seq::empty());
    while i < ended.len()
        invariant
            i <= ended@.len(),
            ended_at(ended@.take(i as int), request) == i,
        decreases ended@.len() - i,
    {
        assert(ended@.take(i + 1).drop_last() =~= ended@.take(i as int));
        if ended[i].request == request {
            proof {
                lemma_ended_found(ended@, request, i as int + 1);
            }
            return i;
        }
        i += 1;
    }
    assert(ended@.take(i as int) =~= ended@);
    i
}

/// Where the first ended response of a client is; the number of ended responses
/// if it has none.
fn find_ended_for(ended: &Vec<Ended>, client: u64) -> (i: usize)
    ensures
        i == ended_for(ended@, client),
        i <= ended@.len(),
{
    let mut i: usize = 0;
    assert(ended@.take(0) =~= Seq::empty());
    while i < ended.len()
        invariant
            i <= ended@.len(),
            ended_for(ended@.take(i as int), client) == i,
        decreases ended@.len() - i,
    {
        assert(ended@.take(i + 1).drop_last() =~= ended@.take(i as int));
        if ended[i].client == client {
            proof {
                lemma_client_found(ended@, client, i as int + 1);
            }
            return i;
        }
        i += 1;
    }
    assert(ended@.take(i as int) =~= ended@);
    i
}

/// A client's response found among the first is the one found among all.
proof fn lemma_client_found(ended: Seq<Ended>, client: u64, k: int)
    requires
        0 <= k <= ended.len(),
        ended_for(ended.take(k), client) < k,
    ensures
        ended_for(ended, client) == ended_for(ended.take(k), client),
    decreases ended.len(),
{
    if k < ended.len() {
        assert(ended.drop_last().take(k) =~= ended.take(k));
        lemma_client_found(ended.drop_last(), client, k);
    } else {
        assert(ended.take(k) =~= ended);
    }
}

/// An ended response found among the first is the one found among all.
proof fn lemma_ended_found(ended: Seq<Ended>, request: u32, k: int)
    requires
        0 <= k <= ended.len(),
        ended_at(ended.take(k), request) < k,
    ensures
        ended_at(ended, request) == ended_at(ended.take(k), request),
    decreases ended.len(),
{
    if k < ended.len() {
        assert(ended.drop_last().take(k) =~= ended.take(k));
        lemma_ended_found(ended.drop_last(), request, k);
    } else {
        assert(ended.take(k) =~= ended);
    }
}

/// Where a request waits; the number of waiting requests if it does not.
fn find_waiting(pending: &Vec<Pending>, request: u32) -> (i: usize)
    ensures
        i == waiting_at(pending_view(pending@), request),
        i <= pending@.len(),
{
    let ghost list = pending_view(pending@);
    let mut i: usize = 0;
    assert(list.take(0) =~= Seq::empty());
    while i < pending.len()
        invariant
            list == pending_view(pending@),
            i <= pending@.len(),
            waiting_at(list.take(i as int), request) == i,
        decreases pending@.len() - i,
    {
        assert(list.take(i + 1).drop_last() =~= list.take(i as int));
        if pending[i].request == request {
            proof {
                lemma_waiting_found(list, request, i as int + 1);
            }
            return i;
        }
        i += 1;
    }
    assert(list.take(i as int) =~= list);
    i
}

proof fn lemma_waiting_found(pending: Seq<PendingModel>, request: u32, k: int)
    requires
        0 <= k <= pending.len(),
        waiting_at(pending.take(k), request) < k,
    ensures
        waiting_at(pending, request) == waiting_at(pending.take(k), request),
    decreases pending.len(),
{
    if k < pending.len() {
        assert(pending.drop_last().take(k) =~= pending.take(k));
        lemma_waiting_found(pending.drop_last(), request, k);
    } else {
        assert(pending.take(k) =~= pending);
    }
}

/// Takes every entry of one request out of the waiting list.
fn drop_waiting(pending: &mut Vec<Pending>, request: u32)
    ensures
        pending_view(final(pending)@) == waiting_without(pending_view(old(pending)@), request),
{
    let ghost list = pending_view(pending@);
    let ghost mut k: int = 0;
    let mut i: usize = 0;
    assert(list.take(0) =~= Seq::empty());
    assert(list.skip(0) =~= list);
    while i < pending.len()
        invariant
            0 <= k <= list.len(),
            i <= pending@.len(),
            i == waiting_without(list.take(k), request).len(),
            pending_view(pending@) == waiting_without(list.take(k), request) + list.skip(k),
        decreases pending@.len() - i,
    {
        let ghost before = pending_view(pending@);
        assert(before[i as int] == list[k]);
        assert(list.take(k + 1).drop_last() =~= list.take(k));
        if pending[i].request == request {
            let _ = pending.remove(i);
            assert(pending_view(pending@) =~= before.remove(i as int));
        } else {
            i += 1;
        }
        proof {
            k = k + 1;
            assert(pending_view(pending@) =~= waiting_without(list.take(k), request) + list.skip(
                k,
            ));
        }
    }
    assert(list.skip(k) =~= Seq::empty());
    assert(list.take(k) =~= list);
    assert(pending_view(pending@) =~= waiting_without(list, request));
}

impl UpstreamConnection {
    /// The invariant between two calls.
    pub closed spec fn wf(self) -> bool {
        self.hpack_dec.wf() && self.hpack_enc.wf()
    }

    /// A connection with the default sizes.
    pub fn new() -> (c: Self)
        ensures
            c.wf(),
            c@ == UpModel::initial(
                (Tuning {
                    connection_window: crate::flow::CONNECTION_WINDOW,
                    stream_window: crate::flow::STREAM_INITIAL_WINDOW,
                    max_concurrent_streams: crate::conn::MAX_CONCURRENT_STREAMS,
                }),
            ),
    {
        Self::with_tuning(Tuning::default())
    }

    /// As [`UpstreamConnection::new`], with the flow-control sizes the
    /// deployment tuned.
    pub fn with_tuning(tuning: Tuning) -> (c: Self)
        ensures
            c.wf(),
            c@ == UpModel::initial(tuning),
    {
        let local_settings = tuning.client_settings();
        let defaults = Settings::default();
        let limit: Option<usize> = match local_settings.max_header_list_size {
            Some(n) => Some(n as usize),
            None => None,
        };
        let c = UpstreamConnection {
            out: BytesMut::new(),
            read_buf: BytesMut::new(),
            codec: FrameCodec::new(local_settings.max_frame_size),
            local_settings,
            peer_settings: defaults,
            open_header_block: None,
            open_header_end_stream: false,
            header_block: BytesMut::new(),
            hpack_dec: HpackDecoder::new(local_settings.header_table_size as usize, limit),
            hpack_enc: HpackEncoder::new(defaults.header_table_size as usize),
            streams: StreamTable::new(
                u32::MAX,
                defaults.initial_window_size as i32,
                local_settings.initial_window_size as i32,
            ),
            conn_send_window: Window::new(defaults.initial_window_size as i32),
            conn_recv_window: RecvWindow::new(tuning.connection_window),
            conn_window: tuning.connection_window,
            ready: VecDeque::new(),
            routes: Vec::new(),
            ended: Vec::new(),
            requests: HashMap::new(),
            cancelled: HashSet::new(),
            pending: Vec::new(),
            next_stream_id: 1,
            peer_draining: None,
            probe: Probe::disabled(),
            effects: Vec::new(),
            summary: UpstreamSummary {
                handshake_completed: false,
                requests_sent: 0,
                responses_received: 0,
                streams_reset: 0,
                data_bytes_received: 0,
                probes_sent: 0,
                probe_timed_out: false,
            },
        };
        assert(c@ =~= UpModel::initial(tuning));
        c
    }

    /// Proves the backend is still there when the socket goes quiet for `idle`,
    /// and gives up on it if the PING is unanswered for `timeout`.
    pub fn with_probe(self, idle: u64, timeout: u64, now: u64) -> (c: Self)
        requires
            self.wf(),
        ensures
            c.wf(),
            c@ == (UpModel { probe: ProbeModel::fresh(idle, timeout, now), ..self@ }),
    {
        let mut c = self;
        c.probe = Probe::new(idle, timeout, now);
        c
    }

    /// Asks something of the outside.
    fn emit(&mut self, e: Effect)
        requires
            old(self).wf(),
        ensures
            final(self).wf(),
            final(self)@ == old(self)@.emits(e@),
    {
        let ghost before = self.effects@;
        self.effects.push(e);
        assert(effects_view(self.effects@) =~= effects_view(before).push(e@));
    }

    /// Tells a client something.
    fn tell(&mut self, client: u64, event: ServiceEvent)
        requires
            old(self).wf(),
        ensures
            final(self).wf(),
            final(self)@ == old(self)@.tells(client, event@),
    {
        self.emit(Effect::Deliver { client, event });
    }

    /// Queues `frame` for the backend.
    fn queue_frame(&mut self, frame: &Frame) -> (r: Result<(), ConnectionError>)
        requires
            old(self).wf(),
        ensures
            final(self).wf(),
            up_ends_as(old(self)@.queues(frame@), final(self)@, r),
    {
        proof {
            reveal(UpModel::queues);
        }
        match self.codec.encode(frame, &mut self.out) {
            Ok(()) => Ok(()),
            Err(e) => {
                let mut text = String::from_str("could not encode ");
                frame.kind().push_text(&mut text);
                text.append(": ");
                let why = e.message();
                text.append(why.as_str());
                Err(ConnectionError::new(ErrorCode::InternalError, text))
            },
        }
    }

    /// Aborts a stream.
    fn write_rst_stream(&mut self, stream_id: StreamId, error_code: ErrorCode) -> (r: Result<
        (),
        ConnectionError,
    >)
        requires
            old(self).wf(),
        ensures
            final(self).wf(),
            up_ends_as(old(self)@.resets(stream_id.value(), error_code), final(self)@, r),
    {
        self.streams.retire(stream_id);
        remove_from_ring(&mut self.ready, stream_id.get());
        self.queue_frame(&Frame::RstStream { stream_id, error_code })
    }

    /// Puts a stream in the ring if it has work and is not already there.
    fn enqueue_ready(&mut self, id: StreamId)
        requires
            old(self).wf(),
        ensures
            final(self).wf(),
            final(self)@ == old(self)@.enqueues(id.value()),
    {
        let joins = match self.streams.get_mut(id) {
            None => false,
            Some(stream) => {
                if stream.queued || !stream.has_pending_send() {
                    false
                } else {
                    stream.queued = true;
                    true
                }
            },
        };
        if joins {
            self.ready.push_back(id.get());
        }
        assert(self@ =~= old(self)@.enqueues(id.value()));
    }

    // ---- what clients ask for ----------------------------------------------

    /// Does what a client asked for.
    pub fn handle_message(&mut self, msg: ToUpstream) -> (r: Result<(), ConnectionError>)
        requires
            old(self).wf(),
        ensures
            final(self).wf(),
            up_ends_as(old(self)@.hears(msg@), final(self)@, r),
    {
        match msg {
            ToUpstream::Request { id, client_id, head, end_stream, client } => self.send_request(
                id.get(),
                client_id,
                client,
                head,
                end_stream,
            ),
            ToUpstream::Body { id, data, end_stream } => {
                self.recv_body(id.get(), data, end_stream);
                Ok(())
            },
            ToUpstream::Trailers { id, fields } => {
                self.recv_trailers(id.get(), fields);
                Ok(())
            },
            ToUpstream::Released { id, n } => {
                let stream: Option<u32> = match self.requests.get(&id.0) {
                    Some(s) => Some(*s),
                    None => None,
                };
                match stream {
                    Some(stream) => self.release(StreamId(stream), n),
                    None => self.settle(id.0, n),
                }
            },
            ToUpstream::Cancel { id, code } => self.cancel(id.get(), code),
            ToUpstream::Left { client } => self.depart(client),
        }
    }

    /// Queues body octets on a request's stream, or behind the request while it
    /// waits for a slot. Octets for a request that is gone are dropped: its
    /// client hears about that separately.
    fn recv_body(&mut self, request: u32, data: Bytes, end_stream: bool)
        requires
            old(self).wf(),
        ensures
            final(self).wf(),
            final(self)@ == old(self)@.takes_body(request, octets(data), end_stream),
    {
        proof {
            reveal(UpModel::takes_body);
        }
        let known: Option<u32> = match self.requests.get(&request) {
            Some(s) => Some(*s),
            None => None,
        };
        match known {
            None => {
                let i = find_waiting(&self.pending, request);
                if i < self.pending.len() {
                    let ghost before = self.pending@;
                    let ghost p = before[i as int];
                    let waiting = &mut self.pending[i];
                    waiting.body.push((data, end_stream));
                    proof {
                        let q = self.pending@[i as int];
                        assert(body_view(q.body@) =~= body_view(p.body@).push(
                            (octets(data), end_stream),
                        ));
                        assert(pending_view(self.pending@) =~= pending_view(before).update(
                            i as int,
                            q@,
                        ));
                    }
                }
            },
            Some(id) => {
                let id = StreamId(id);
                let live = match self.streams.get_mut(id) {
                    None => false,
                    Some(stream) => {
                        let ghost before = stream.send_queue@;
                        if !data.is_empty() {
                            stream.send_queue.push_back(data);
                        }
                        if end_stream {
                            stream.send_end_stream = true;
                        }
                        proof {
                            let one = seq![(octets(data), end_stream)];
                            assert(one.drop_last() =~= Seq::empty());
                            reveal_with_fuel(queue_with, 2);
                            if octets(data).len() > 0 {
                                assert(chunks(stream.send_queue@) =~= chunks(before).push(
                                    octets(data),
                                ));
                            }
                            assert(chunks(stream.send_queue@) == queue_with(chunks(before), one));
                            if end_stream {
                                assert(one[0].1);
                            }
                            assert(body_ends(one) == end_stream);
                        }
                        true
                    },
                };
                if live {
                    assert(self@ =~= old(self)@.loads(
                        id.value(),
                        seq![(octets(data), end_stream)],
                        None,
                    ));
                    self.enqueue_ready(id);
                } else {
                    assert(self@ =~= old(self)@);
                }
            },
        }
    }

    /// Queues a trailer section behind a request's body.
    fn recv_trailers(&mut self, request: u32, fields: Vec<Header>)
        requires
            old(self).wf(),
        ensures
            final(self).wf(),
            final(self)@ == old(self)@.takes_request_trailers(request, headers_view(fields@)),
    {
        proof {
            reveal(UpModel::takes_request_trailers);
        }
        let known: Option<u32> = match self.requests.get(&request) {
            Some(s) => Some(*s),
            None => None,
        };
        match known {
            None => {
                let i = find_waiting(&self.pending, request);
                if i < self.pending.len() {
                    let ghost before = self.pending@;
                    let waiting = &mut self.pending[i];
                    waiting.trailers = Some(fields);
                    proof {
                        let q = self.pending@[i as int];
                        assert(pending_view(self.pending@) =~= pending_view(before).update(
                            i as int,
                            q@,
                        ));
                    }
                }
            },
            Some(id) => {
                let id = StreamId(id);
                let live = match self.streams.get_mut(id) {
                    None => false,
                    Some(stream) => {
                        stream.pending_trailers = Some(fields);
                        stream.send_end_stream = true;
                        true
                    },
                };
                if live {
                    assert(self@ =~= old(self)@.loads(
                        id.value(),
                        Seq::empty(),
                        Some(headers_view(fields@)),
                    ));
                    self.enqueue_ready(id);
                } else {
                    assert(self@ =~= old(self)@);
                }
            },
        }
    }

    /// Drops what a client abandoned.
    fn cancel(&mut self, request: u32, code: ErrorCode) -> (r: Result<(), ConnectionError>)
        requires
            old(self).wf(),
        ensures
            final(self).wf(),
            up_ends_as(old(self)@.cancels(request, code), final(self)@, r),
    {
        proof {
            reveal(UpModel::cancels);
        }
        let known: Option<u32> = match self.requests.get(&request) {
            Some(s) => Some(*s),
            None => None,
        };
        match known {
            None => {
                if find_ended(&self.ended, request) < self.ended.len() {
                    return self.settle(request, u32::MAX);
                }
                // Drop it from the queue if it is waiting, and remember the id in
                // case the request itself is still on its way behind this.
                drop_waiting(&mut self.pending, request);
                self.cancelled.insert(request);
                Ok(())
            },
            Some(id) => {
                let id = StreamId(id);
                if self.streams.is_live(id) {
                    self.summary.streams_reset = self.summary.streams_reset.saturating_add(1);
                    match self.write_rst_stream(id, code) {
                        Ok(()) => {},
                        Err(e) => return Err(e),
                    }
                }
                self.forget(id);
                Ok(())
            },
        }
    }

    /// Opens a stream on this connection and sends the request head, or makes
    /// the request wait for a slot.
    fn send_request(
        &mut self,
        request: u32,
        client_id: StreamId,
        client: u64,
        head: Box<RequestHead>,
        end_stream: bool,
    ) -> (r: Result<(), ConnectionError>)
        requires
            old(self).wf(),
        ensures
            final(self).wf(),
            up_ends_as(
                old(self)@.sends_request(request, client_id.value(), client, head@, end_stream),
                final(self)@,
                r,
            ),
    {
        proof {
            reveal(UpModel::sends_request);
        }
        if self.cancelled.remove(&request) {
            // The client gave up while this was on its way.
            return Ok(());
        }
        assert(self@.cancelled =~= old(self)@.cancelled);
        if self.peer_draining.is_some() {
            // The backend has said it will process nothing further, so this
            // provably never started.
            self.tell(
                client,
                ServiceEvent::Reset { id: client_id, code: ErrorCode::RefusedStream },
            );
            return Ok(());
        }
        if !self.streams.can_open_local() {
            let ghost before = self.pending@;
            let waiting = Pending {
                request,
                client_id,
                client,
                head,
                end_stream,
                body: Vec::new(),
                trailers: None,
            };
            let ghost w = waiting@;
            self.pending.push(waiting);
            proof {
                assert(body_view(waiting.body@) =~= Seq::empty());
                assert(pending_view(self.pending@) =~= pending_view(before).push(w));
            }
            return Ok(());
        }
        let id = StreamId::new(self.next_stream_id);
        self.next_stream_id = self.next_stream_id.saturating_add(2);
        match self.streams.open_local(id) {
            Ok(()) => {},
            Err(_) => {
                self.tell(
                    client,
                    ServiceEvent::Reset { id: client_id, code: ErrorCode::RefusedStream },
                );
                return Ok(());
            },
        }
        self.start_request(id, request, client_id, client, head, end_stream)
    }

    /// Sets up the route of a freshly opened stream and queues its HEADERS.
    fn start_request(
        &mut self,
        id: StreamId,
        request: u32,
        client_id: StreamId,
        client: u64,
        head: Box<RequestHead>,
        end_stream: bool,
    ) -> (r: Result<(), ConnectionError>)
        requires
            old(self).wf(),
        ensures
            final(self).wf(),
            up_ends_as(
                old(self)@.starts_request(
                    id.value(),
                    request,
                    client_id.value(),
                    client,
                    head@,
                    end_stream,
                ),
                final(self)@,
                r,
            ),
    {
        proof {
            reveal(UpModel::starts_request);
        }
        self.routes.push(
            Route {
                stream: id.get(),
                client_id: client_id.get(),
                client,
                request,
                head_sent: false,
                pending_conn_release: 0,
            },
        );
        self.requests.insert(request, id.get());
        let headers = head.to_headers();
        let mut block = BytesMut::new();
        self.hpack_enc.encode(&headers, &mut block);
        let block = block.freeze();
        assert(octets(block) =~= old(self)@.enc.encoded(request_headers(head@)).1);
        self.emit(Effect::StreamOpened);
        match self.queue_frame(&Frame::Headers { stream_id: id, block, end_stream, end_headers: true }) {
            Ok(()) => {},
            Err(e) => return Err(e),
        }
        // A stream that was just opened takes its HEADERS.
        let _ = self.streams.apply(id, StreamEvent::SendHeaders { end_stream });
        self.summary.requests_sent = self.summary.requests_sent.saturating_add(1);
        Ok(())
    }

    /// Queues what arrived for a request while it waited.
    fn load(&mut self, id: StreamId, body: Vec<(Bytes, bool)>, trailers: Option<Vec<Header>>)
        requires
            old(self).wf(),
        ensures
            final(self).wf(),
            final(self)@ == old(self)@.loads(id.value(), body_view(body@), trailers_view(trailers)),
    {
        match self.streams.get_mut(id) {
            None => {},
            Some(stream) => {
                let ghost s0 = stream@;
                let ghost all = body_view(body@);
                let mut i: usize = 0;
                let mut ended = false;
                assert(all.take(0) =~= Seq::empty());
                let mut queue: VecDeque<Bytes> = VecDeque::new();
                std::mem::swap(&mut queue, &mut stream.send_queue);
                while i < body.len()
                    invariant
                        all == body_view(body@),
                        i <= body@.len(),
                        chunks(queue@) == queue_with(s0.send_queue, all.take(i as int)),
                        ended == body_ends(all.take(i as int)),
                    decreases body@.len() - i,
                {
                    proof {
                        assert(all.take(i + 1).drop_last() =~= all.take(i as int));
                        assert(all.take(i + 1).last() == all[i as int]);
                        assert(body_ends(all.take(i + 1)) == (body_ends(all.take(i as int))
                            || all[i as int].1)) by {
                            if body_ends(all.take(i as int)) {
                                let j = choose|j: int|
                                    0 <= j < all.take(i as int).len() && (#[trigger] all.take(
                                        i as int,
                                    )[j]).1;
                                assert(all.take(i + 1)[j].1);
                            }
                            if all[i as int].1 {
                                assert(all.take(i + 1)[i as int].1);
                            }
                            if body_ends(all.take(i + 1)) {
                                let j = choose|j: int|
                                    0 <= j < all.take(i + 1).len() && (#[trigger] all.take(
                                        i + 1,
                                    )[j]).1;
                                if j < i {
                                    assert(all.take(i as int)[j].1);
                                }
                            }
                        }
                    }
                    let ghost q0 = queue@;
                    if !body[i].0.is_empty() {
                        let chunk = body[i].0.clone();
                        queue.push_back(chunk);
                        assert(chunks(queue@) =~= chunks(q0).push(octets(body@[i as int].0)));
                    }
                    if body[i].1 {
                        ended = true;
                    }
                    i += 1;
                }
                assert(all.take(i as int) =~= all);
                stream.send_queue = queue;
                if ended {
                    stream.send_end_stream = true;
                }
                if let Some(fields) = trailers {
                    stream.pending_trailers = Some(fields);
                    stream.send_end_stream = true;
                }
            },
        }
        assert(self@ =~= old(self)@.loads(id.value(), body_view(body@), trailers_view(trailers)));
    }

    /// Takes up the oldest waiting request.
    fn start_oldest(&mut self) -> (r: Result<(), ConnectionError>)
        requires
            old(self).wf(),
            old(self)@.pending.len() > 0,
        ensures
            final(self).wf(),
            up_ends_as(old(self)@.starts_oldest(), final(self)@, r),
    {
        proof {
            reveal(UpModel::starts_oldest);
        }
        let ghost before = self.pending@;
        let waiting = self.pending.remove(0);
        proof {
            assert(pending_view(before)[0] == waiting@);
            assert(pending_view(self.pending@) =~= pending_view(before).skip(1));
        }
        let Pending { request, client_id, client, head, end_stream, body, trailers } = waiting;
        match self.send_request(request, client_id, client, head, end_stream) {
            Ok(()) => {},
            Err(e) => return Err(e),
        }
        let known: Option<u32> = match self.requests.get(&request) {
            Some(s) => Some(*s),
            None => None,
        };
        if let Some(id) = known {
            let id = StreamId(id);
            self.load(id, body, trailers);
            self.enqueue_ready(id);
        }
        Ok(())
    }

    /// Starts as many queued requests as there are slots for.
    fn drain_pending(&mut self) -> (r: Result<(), ConnectionError>)
        requires
            old(self).wf(),
        ensures
            final(self).wf(),
            up_ends_as(old(self)@.starts_pending(), final(self)@, r),
    {
        while self.streams.can_open_local() && self.pending.len() != 0
            invariant
                self.wf(),
                old(self)@.starts_pending() == self@.starts_pending(),
            decreases self@.pending.len(),
        {
            proof {
                lemma_starts_oldest_pending(self@);
            }
            match self.start_oldest() {
                Ok(()) => {},
                Err(e) => return Err(e),
            }
        }
        Ok(())
    }

    /// Gives connection credit back.
    fn release_conn(&mut self, n: u32) -> (r: Result<(), ConnectionError>)
        requires
            old(self).wf(),
        ensures
            final(self).wf(),
            up_ends_as(old(self)@.releases_conn(n), final(self)@, r),
    {
        match self.conn_recv_window.release(n) {
            Some(increment) => self.queue_frame(
                &Frame::WindowUpdate { stream_id: StreamId::connection(), increment },
            ),
            None => Ok(()),
        }
    }

    /// Gives the backend back `n` octets of credit, now that the client has them.
    fn release(&mut self, id: StreamId, n: u32) -> (r: Result<(), ConnectionError>)
        requires
            old(self).wf(),
        ensures
            final(self).wf(),
            up_ends_as(old(self)@.releases(id.value(), n), final(self)@, r),
    {
        proof {
            reveal(UpModel::releases);
        }
        if n == 0 {
            return Ok(());
        }
        let i = find_route(&self.routes, id.get());
        if i < self.routes.len() {
            let mut route = self.routes[i];
            route.pending_conn_release = route.pending_conn_release.saturating_sub(n);
            self.routes.set(i, route);
        }
        self.emit(Effect::Unbuffered(n));
        let ghost m0 = self@;
        let due = match self.streams.get_mut(id) {
            None => None,
            Some(stream) => stream.recv_window.release(n),
        };
        assert(!m0.streams.live.contains_key(id.value()) ==> self@ =~= m0);
        if let Some(increment) = due {
            match self.queue_frame(&Frame::WindowUpdate { stream_id: id, increment }) {
                Ok(()) => {},
                Err(e) => return Err(e),
            }
        }
        self.release_conn(n)
    }

    /// Drops a route, returning any connection credit it was still holding.
    fn drop_route(&mut self, id: StreamId)
        requires
            old(self).wf(),
        ensures
            final(self).wf(),
            final(self)@ == old(self)@.drops_route(id.value()),
    {
        proof {
            reveal(UpModel::drops_route);
        }
        let i = find_route(&self.routes, id.get());
        if i < self.routes.len() {
            let route = self.routes.remove(i);
            self.requests.remove(&route.request);
            self.emit(Effect::StreamClosed);
            if route.pending_conn_release > 0 {
                self.emit(Effect::Unbuffered(route.pending_conn_release));
                // Best effort: a WINDOW_UPDATE that cannot be queued is on a
                // connection that is already going down.
                let _ = self.release_conn(route.pending_conn_release);
            }
        }
    }

    /// Takes up to `n` octets of an ended response off the books, and gives the
    /// backend that much connection credit back.
    fn settle(&mut self, request: u32, n: u32) -> (r: Result<(), ConnectionError>)
        requires
            old(self).wf(),
        ensures
            final(self).wf(),
            up_ends_as(old(self)@.settles(request, n), final(self)@, r),
    {
        proof {
            reveal(UpModel::settles);
        }
        let i = find_ended(&self.ended, request);
        if i >= self.ended.len() || n == 0 {
            return Ok(());
        }
        self.settle_at(i, n)
    }

    /// Takes up to `n` octets of the ended response at `i` off the books.
    fn settle_at(&mut self, i: usize, n: u32) -> (r: Result<(), ConnectionError>)
        requires
            old(self).wf(),
            i < old(self).ended@.len(),
        ensures
            final(self).wf(),
            up_ends_as(old(self)@.settles_at(i as int, n), final(self)@, r),
    {
        proof {
            reveal(UpModel::settles_at);
        }
        let e = self.ended[i];
        let owed = e.pending_conn_release;
        let back = if n >= owed {
            self.ended.remove(i);
            owed
        } else {
            self.ended.set(i, Ended { pending_conn_release: owed - n, ..e });
            n
        };
        self.emit(Effect::Unbuffered(back));
        self.release_conn(back)
    }

    /// A client connection is gone: what its ended responses still hold is held
    /// for nobody.
    fn depart(&mut self, client: u64) -> (r: Result<(), ConnectionError>)
        requires
            old(self).wf(),
        ensures
            final(self).wf(),
            up_ends_as(old(self)@.departs(client), final(self)@, r),
    {
        loop
            invariant
                self.wf(),
                self@.departs(client) == old(self)@.departs(client),
            decreases self.ended@.len(),
        {
            let i = find_ended_for(&self.ended, client);
            if i >= self.ended.len() {
                return Ok(());
            }
            proof {
                lemma_settles_all_at(self@, i as int);
            }
            match self.settle_at(i, u32::MAX) {
                Ok(()) => {},
                Err(e) => return Err(e),
            }
        }
    }

    /// Drops the route of a complete response. What its client has not confirmed
    /// yet stays on the books until it has, or gives it up.
    fn complete_route(&mut self, id: StreamId)
        requires
            old(self).wf(),
        ensures
            final(self).wf(),
            final(self)@ == old(self)@.completes_route(id.value()),
    {
        proof {
            reveal(UpModel::completes_route);
        }
        let i = find_route(&self.routes, id.get());
        if i < self.routes.len() {
            let route = self.routes.remove(i);
            self.requests.remove(&route.request);
            if route.pending_conn_release > 0 {
                self.ended.push(
                    Ended {
                        request: route.request,
                        client: route.client,
                        pending_conn_release: route.pending_conn_release,
                    },
                );
            }
            self.emit(Effect::StreamClosed);
        }
    }

    /// Ends a stream whose response is complete, and hands the slot it just freed
    /// to whatever is waiting.
    fn complete(&mut self, id: StreamId)
        requires
            old(self).wf(),
        ensures
            final(self).wf(),
            final(self)@ == old(self)@.completes(id.value()),
    {
        proof {
            reveal(UpModel::completes);
        }
        self.streams.retire(id);
        remove_from_ring(&mut self.ready, id.get());
        self.complete_route(id);
        let _ = self.drain_pending();
    }

    /// Forgets a stream, and hands the slot it just freed to whatever is
    /// waiting.
    fn forget(&mut self, id: StreamId)
        requires
            old(self).wf(),
        ensures
            final(self).wf(),
            final(self)@ == old(self)@.forgets(id.value()),
    {
        proof {
            reveal(UpModel::forgets);
        }
        self.streams.retire(id);
        remove_from_ring(&mut self.ready, id.get());
        self.drop_route(id);
        let _ = self.drain_pending();
    }

    // ---- the backend goes away ----------------------------------------------

    /// Retires this connection from the pool, refuses everything the backend
    /// will never process, and keeps the rest running (§6.8).
    fn begin_peer_drain(&mut self, last_stream_id: StreamId, now: u64)
        requires
            old(self).wf(),
        ensures
            final(self).wf(),
            final(self)@ == old(self)@.starts_drain(last_stream_id.value(), now),
    {
        proof {
            reveal(UpModel::starts_drain);
        }
        self.emit(Effect::Retire);
        self.peer_draining = Some((last_stream_id, now.saturating_add(PEER_DRAIN_DEADLINE)));
        self.tell_pending(true);
        let mut abandoned: Vec<u32> = Vec::new();
        let mut i: usize = 0;
        let ghost m0 = self@;
        assert(self.routes@.take(0) =~= Seq::empty());
        assert(abandoned@ =~= Seq::empty());
        while i < self.routes.len()
            invariant
                self@ == m0,
                self.wf(),
                i <= self.routes@.len(),
                abandoned@ == above(self.routes@.take(i as int), last_stream_id.value()),
            decreases self.routes@.len() - i,
        {
            assert(self.routes@.take(i + 1).drop_last() =~= self.routes@.take(i as int));
            if self.routes[i].stream > last_stream_id.get() {
                abandoned.push(self.routes[i].stream);
            }
            i += 1;
        }
        assert(self.routes@.take(i as int) =~= self.routes@);
        let mut k: usize = 0;
        assert(abandoned@.take(0) =~= Seq::empty());
        while k < abandoned.len()
            invariant
                self.wf(),
                k <= abandoned@.len(),
                self@ == m0.abandons(abandoned@.take(k as int)),
            decreases abandoned@.len() - k,
        {
            assert(abandoned@.take(k + 1).drop_last() =~= abandoned@.take(k as int));
            let id = StreamId(abandoned[k]);
            let j = find_route(&self.routes, id.get());
            if j < self.routes.len() {
                let route = self.routes[j];
                self.tell(
                    route.client,
                    ServiceEvent::Reset { id: StreamId(route.client_id), code: ErrorCode::RefusedStream },
                );
            }
            self.forget(id);
            k += 1;
        }
        assert(abandoned@.take(k as int) =~= abandoned@);
    }

    /// Tells every waiting request that it will not be sent, and empties the
    /// queue.
    fn tell_pending(&mut self, refused: bool)
        requires
            old(self).wf(),
        ensures
            final(self).wf(),
            final(self)@ == (UpModel {
                pending: Seq::empty(),
                effects: old(self)@.effects + pending_told(old(self)@.pending, refused),
                ..old(self)@
            }),
    {
        let mut list: Vec<Pending> = Vec::new();
        std::mem::swap(&mut list, &mut self.pending);
        let ghost all = pending_view(list@);
        let ghost e0 = self@.effects;
        assert(self@ =~= (UpModel { pending: Seq::empty(), ..old(self)@ }));
        let mut i: usize = 0;
        assert(all.take(0) =~= Seq::empty());
        assert(e0 + Seq::<EffectModel>::empty() =~= e0);
        while i < list.len()
            invariant
                self.wf(),
                all == pending_view(list@),
                i <= list@.len(),
                self@ == (UpModel {
                    pending: Seq::empty(),
                    effects: e0 + pending_told(all.take(i as int), refused),
                    ..old(self)@
                }),
            decreases list@.len() - i,
        {
            let ghost told = pending_told(all.take(i as int), refused);
            proof {
                assert(all.take(i + 1).drop_last() =~= all.take(i as int));
                assert(all.take(i + 1).last() == list@[i as int]@);
            }
            let id = list[i].client_id;
            let client = list[i].client;
            let event = if refused {
                ServiceEvent::Reset { id, code: ErrorCode::RefusedStream }
            } else {
                ServiceEvent::Gone { id }
            };
            let ghost e = event@;
            self.tell(client, event);
            assert(e0 + told.push(EffectModel::Deliver { client, event: e }) =~= (e0 + told).push(
                EffectModel::Deliver { client, event: e },
            ));
            i += 1;
        }
        assert(all.take(i as int) =~= all);
    }

    /// Whether a peer drain is finished: nothing left to wait for, or waited
    /// long enough.
    pub fn peer_drain_complete(&self, now: u64) -> (b: bool)
        requires
            self.wf(),
        ensures
            b == self@.drained(now),
    {
        match self.peer_draining {
            None => false,
            Some((_, deadline)) => self.routes.len() == 0 || now >= deadline,
        }
    }

    /// Tells every client still waiting that this connection is gone. Nobody
    /// may be left waiting for a response that will never arrive. Responses that
    /// had ended are the clients' own business from here on.
    pub fn fail_all_routes(&mut self)
        requires
            old(self).wf(),
        ensures
            final(self).wf(),
            final(self)@ == old(self)@.fails_all(),
    {
        self.requests = HashMap::new();
        self.tell_pending(false);
        let ghost m1 = self@;
        let mut list: Vec<Route> = Vec::new();
        std::mem::swap(&mut list, &mut self.routes);
        let ghost all = list@;
        let mut i: usize = 0;
        assert(all.take(0) =~= Seq::empty());
        assert(m1.effects + Seq::<EffectModel>::empty() =~= m1.effects);
        assert(self@ =~= (UpModel { routes: Seq::empty(), ..m1 }));
        while i < list.len()
            invariant
                self.wf(),
                all == list@,
                i <= list@.len(),
                self@ == (UpModel {
                    routes: Seq::empty(),
                    effects: m1.effects + routes_lost(all.take(i as int)),
                    ..m1
                }),
            decreases list@.len() - i,
        {
            let ghost lost = routes_lost(all.take(i as int));
            let ghost r = all[i as int];
            proof {
                assert(all.take(i + 1).drop_last() =~= all.take(i as int));
            }
            let route = list[i];
            self.emit(Effect::StreamClosed);
            if route.pending_conn_release > 0 {
                self.emit(Effect::Unbuffered(route.pending_conn_release));
            }
            let event = if route.head_sent {
                // The status line is already on the client's wire; the only
                // truthful ending left is an abort.
                self.emit(
                    Effect::Failure { client: route.client, id: StreamId(route.client_id) },
                );
                ServiceEvent::Reset { id: StreamId(route.client_id), code: ErrorCode::InternalError }
            } else {
                ServiceEvent::Gone { id: StreamId(route.client_id) }
            };
            self.tell(route.client, event);
            assert(self@.effects =~= m1.effects + (lost + route_lost(r)));
            i += 1;
        }
        assert(all.take(i as int) =~= all);
        self.free_ended();
        assert(self@ =~= old(self)@.fails_all());
    }

    /// Takes every ended response off the books of a connection that is gone.
    fn free_ended(&mut self)
        requires
            old(self).wf(),
        ensures
            final(self).wf(),
            final(self)@ == (UpModel {
                ended: Seq::empty(),
                effects: old(self)@.effects + ended_freed(old(self)@.ended),
                ..old(self)@
            }),
    {
        let mut list: Vec<Ended> = Vec::new();
        std::mem::swap(&mut list, &mut self.ended);
        let ghost all = list@;
        let ghost e0 = self@.effects;
        let mut i: usize = 0;
        assert(e0 + ended_freed(all.take(0)) =~= e0);
        assert(self@ =~= (UpModel { ended: Seq::empty(), ..old(self)@ }));
        while i < list.len()
            invariant
                self.wf(),
                all == list@,
                i <= list@.len(),
                self@ == (UpModel {
                    ended: Seq::empty(),
                    effects: e0 + ended_freed(all.take(i as int)),
                    ..old(self)@
                }),
            decreases list@.len() - i,
        {
            self.emit(Effect::Unbuffered(list[i].pending_conn_release));
            assert(self@.effects =~= e0 + ended_freed(all.take(i + 1)));
            i += 1;
        }
        assert(all.take(i as int) =~= all);
    }

    // ---- what the backend says ---------------------------------------------

    /// Acts on one decoded frame.
    pub fn handle_frame(&mut self, frame: Frame, now: u64) -> (r: Result<(), ConnectionError>)
        requires
            old(self).wf(),
        ensures
            final(self).wf(),
            up_ends_as(old(self)@.handles(frame@, now), final(self)@, r),
    {
        // §4.3: nothing may come between a HEADERS and its CONTINUATION.
        let continuation = matches!(frame, Frame::Continuation { .. });
        match self.open_header_block {
            Some(open) => {
                if !continuation || frame.stream_id().get() != open.get() {
                    let mut text = numbered_text(
                        "expected CONTINUATION on stream ",
                        open.get(),
                        ", got ",
                    );
                    frame.kind().push_text(&mut text);
                    return Err(ConnectionError::new(ErrorCode::ProtocolError, text));
                }
            },
            None => {
                if continuation {
                    return Err(
                        ConnectionError::with_text(
                            ErrorCode::ProtocolError,
                            "CONTINUATION with no header block open",
                        ),
                    );
                }
            },
        }
        let ghost m0 = self@;
        let done = match &frame {
            Frame::Settings { ack, params } => if *ack {
                Ok(())
            } else {
                self.recv_settings(params)
            },
            Frame::Ping { data, ack } => if *ack {
                // The payload is checked rather than just the flag: only a
                // matching one answers the question we asked.
                if self.probe.enabled() {
                    let _ = self.probe.acked(data, now);
                }
                Ok(())
            } else {
                self.queue_frame(&Frame::Ping { data: *data, ack: true })
            },
            Frame::GoAway { last_stream_id, .. } => {
                self.begin_peer_drain(*last_stream_id, now);
                Ok(())
            },
            Frame::WindowUpdate { stream_id, increment } => self.recv_window_update(
                *stream_id,
                *increment,
            ),
            Frame::Headers { stream_id, block, end_stream, end_headers } => {
                if self.open_header_block.is_none() {
                    self.open_header_end_stream = *end_stream;
                }
                self.read_header_block(*stream_id, block, *end_headers)
            },
            Frame::Continuation { stream_id, block, end_headers } => self.read_header_block(
                *stream_id,
                block,
                *end_headers,
            ),
            Frame::Data { stream_id, data, end_stream } => self.recv_data(
                *stream_id,
                data,
                *end_stream,
            ),
            Frame::RstStream { stream_id, error_code } => {
                self.recv_rst_stream(*stream_id, *error_code);
                Ok(())
            },
        };
        assert(up_ends_as(m0.acts_on(frame@, now), self@, done));
        match done {
            Ok(()) => {},
            Err(e) => return Err(e),
        }
        let ghost m1 = self@;
        match &frame {
            Frame::Headers { stream_id, end_headers, .. }
            | Frame::Continuation { stream_id, end_headers, .. } => {
                self.open_header_block = if *end_headers {
                    None
                } else {
                    Some(*stream_id)
                };
            },
            _ => {},
        }
        assert(self@ =~= (UpModel { open_block: m1.block_after(frame@), ..m1 }));
        Ok(())
    }

    /// The backend reset a stream: its client hears the same.
    fn recv_rst_stream(&mut self, stream_id: StreamId, error_code: ErrorCode)
        requires
            old(self).wf(),
        ensures
            final(self).wf(),
            final(self)@ == old(self)@.takes_reset(stream_id.value(), error_code),
    {
        proof {
            reveal(UpModel::takes_reset);
        }
        let i = find_route(&self.routes, stream_id.get());
        if i < self.routes.len() {
            let route = self.routes[i];
            self.summary.streams_reset = self.summary.streams_reset.saturating_add(1);
            self.tell(
                route.client,
                ServiceEvent::Reset { id: StreamId(route.client_id), code: error_code },
            );
        }
        self.forget(stream_id);
    }

    /// Applies the backend's SETTINGS and acknowledges them.
    fn recv_settings(&mut self, params: &[(u16, u32)]) -> (r: Result<(), ConnectionError>)
        requires
            old(self).wf(),
        ensures
            final(self).wf(),
            up_ends_as(old(self)@.takes_settings(params@), final(self)@, r),
    {
        proof {
            reveal(UpModel::takes_settings);
        }
        let previous = self.peer_settings.initial_window_size;
        match self.peer_settings.apply(params) {
            Ok(()) => {},
            Err(e) => return Err(e),
        }
        self.hpack_enc.set_max_table_size(self.peer_settings.header_table_size as usize);
        if let Some(max) = self.peer_settings.max_concurrent_streams {
            self.streams.set_max_concurrent(max);
            self.emit(Effect::MaxConcurrent(max));
        }
        let delta: i64 = self.peer_settings.initial_window_size as i64 - previous as i64;
        if delta != 0 {
            if let Err(code) = self.streams.apply_initial_window_delta(delta as i32) {
                return Err(
                    ConnectionError::with_text(code, "INITIAL_WINDOW_SIZE change overflows"),
                );
            }
        }
        let params: Vec<(u16, u32)> = Vec::new();
        assert(params@ =~= Seq::empty());
        match self.queue_frame(&Frame::Settings { ack: true, params }) {
            Ok(()) => {},
            Err(e) => return Err(e),
        }
        self.summary.handshake_completed = true;
        Ok(())
    }

    /// An ignored frame between a HEADERS and its CONTINUATION is an error.
    fn reject_if_mid_header_block(&self, kind: FrameType, stream_id: StreamId) -> (r: Result<
        (),
        ConnectionError,
    >)
        ensures
            match r {
                Ok(()) => self@.open_block is None,
                Err(e) => self@.open_block is Some && e@ == self@.interrupted(
                    self@.open_block->0,
                    kind,
                    stream_id.value(),
                ),
            },
    {
        match self.open_header_block {
            Some(open) => {
                let mut text = numbered_text(
                    "expected CONTINUATION on stream ",
                    open.get(),
                    ", got ",
                );
                kind.push_text(&mut text);
                let tail = numbered_text(" on stream ", stream_id.get(), "");
                text.append(tail.as_str());
                Err(ConnectionError::new(ErrorCode::ProtocolError, text))
            },
            None => Ok(()),
        }
    }

    /// Takes one fragment of a header block, decoding once END_HEADERS arrives.
    fn read_header_block(&mut self, stream_id: StreamId, fragment: &Bytes, end_headers: bool) -> (r:
        Result<(), ConnectionError>)
        requires
            old(self).wf(),
        ensures
            final(self).wf(),
            up_ends_as(
                old(self)@.takes_fragment(stream_id.value(), octets(*fragment), end_headers),
                final(self)@,
                r,
            ),
    {
        proof {
            reveal(UpModel::takes_fragment);
        }
        let held = self.header_block.len();
        if held > MAX_HEADER_BLOCK_BYTES || fragment.len() > MAX_HEADER_BLOCK_BYTES - held {
            self.header_block.clear();
            return Err(
                ConnectionError::with_text(
                    ErrorCode::EnhanceYourCalm,
                    "backend header block too large",
                ),
            );
        }
        let ghost whole = buffered(self.header_block) + octets(*fragment);
        let block = if end_headers && held == 0 {
            assert(whole =~= octets(*fragment));
            assert(buffered(self.header_block) =~= Seq::empty());
            fragment.clone()
        } else {
            put_slice(&mut self.header_block, as_slice(fragment));
            if !end_headers {
                return Ok(());
            }
            self.header_block.split().freeze()
        };
        // A backend that corrupts the HPACK stream poisons the shared dynamic
        // table: fatal to this connection, and the pool opens another.
        match self.hpack_dec.decode(&block) {
            Ok(headers) => {
                let end_stream = self.open_header_end_stream;
                self.recv_response(stream_id, &headers, end_stream)
            },
            Err(HpackError::HeaderListTooLarge { .. }) => self.fail_stream(stream_id),
            Err(e) => Err(e.into_connection_error()),
        }
    }

    /// A response head, or a trailer section if one was already forwarded.
    fn recv_response(&mut self, stream_id: StreamId, headers: &[Header], end_stream: bool) -> (r:
        Result<(), ConnectionError>)
        requires
            old(self).wf(),
        ensures
            final(self).wf(),
            up_ends_as(
                old(self)@.takes_response(stream_id.value(), headers_view(headers@), end_stream),
                final(self)@,
                r,
            ),
    {
        proof {
            reveal(UpModel::takes_response);
        }
        if self.streams.lookup(stream_id).is_idle() {
            return Err(
                ConnectionError::new(
                    ErrorCode::ProtocolError,
                    numbered_text(
                        "HEADERS on stream ",
                        stream_id.get(),
                        ", which we never opened",
                    ),
                ),
            );
        }
        assert(self@ =~= old(self)@);
        let i = find_route(&self.routes, stream_id.get());
        if i >= self.routes.len() {
            return Ok(());
        }
        let route = self.routes[i];
        if route.head_sent {
            // A second field section is a trailer section, and ends the response
            // (§8.1). What is neither leaves nothing to end it with.
            if !end_stream || validate_trailers(headers).is_err() {
                return self.fail_stream(stream_id);
            }
            let fields = clone_headers(headers);
            self.tell(
                route.client,
                ServiceEvent::Trailers { id: StreamId(route.client_id), fields },
            );
            return self.advance_to_end(
                stream_id,
                StreamEvent::RecvHeaders { end_stream },
                end_stream,
            );
        }
        let head = match ResponseHead::from_headers(headers) {
            Ok(head) => head,
            Err(_) => return self.fail_stream(stream_id),
        };
        // 1xx is a preview, not the answer: forward nothing and keep waiting.
        if head.is_informational() {
            // One that ends the stream leaves no answer to wait for.
            if end_stream {
                return self.fail_stream(stream_id);
            }
            return self.apply_stream_event(
                stream_id,
                StreamEvent::RecvHeaders { end_stream: false },
            );
        }
        let mut answered = route;
        answered.head_sent = true;
        self.routes.set(i, answered);
        self.tell(
            route.client,
            ServiceEvent::Head {
                id: StreamId(route.client_id),
                response: Response { status: head.status, fields: head.fields },
                end_stream,
            },
        );
        self.summary.responses_received = self.summary.responses_received.saturating_add(1);
        self.advance_to_end(stream_id, StreamEvent::RecvHeaders { end_stream }, end_stream)
    }

    /// Drives an event through a stream, which is over where the backend ended
    /// it.
    fn advance_to_end(&mut self, id: StreamId, event: StreamEvent, end: bool) -> (r: Result<
        (),
        ConnectionError,
    >)
        requires
            old(self).wf(),
        ensures
            final(self).wf(),
            up_ends_as(old(self)@.advances_to_end(id.value(), event, end), final(self)@, r),
    {
        proof {
            reveal(UpModel::advances_to_end);
        }
        match self.apply_stream_event(id, event) {
            Ok(()) => {},
            Err(e) => return Err(e),
        }
        if end {
            self.complete(id);
        }
        Ok(())
    }

    /// Response body octets: recorded, forwarded, and not released.
    fn recv_data(&mut self, stream_id: StreamId, data: &Bytes, end_stream: bool) -> (r: Result<
        (),
        ConnectionError,
    >)
        requires
            old(self).wf(),
        ensures
            final(self).wf(),
            up_ends_as(
                old(self)@.takes_data(stream_id.value(), octets(*data), end_stream),
                final(self)@,
                r,
            ),
    {
        proof {
            reveal(UpModel::takes_data);
        }
        let len = data.len() as u32;
        if let Err(code) = self.conn_recv_window.record(len) {
            return Err(
                ConnectionError::with_text(
                    code,
                    "backend exceeded the connection flow-control window",
                ),
            );
        }
        let ghost m0 = self@;
        let fits = match self.streams.lookup(stream_id) {
            Lookup::Idle => {
                return Err(
                    ConnectionError::new(
                        ErrorCode::ProtocolError,
                        numbered_text(
                            "DATA on stream ",
                            stream_id.get(),
                            ", which we never opened",
                        ),
                    ),
                );
            },
            Lookup::Closed => {
                // Nothing will ever accept these, so the credit goes back now.
                return self.release_conn(len);
            },
            Lookup::Live(stream) => len as i64 <= stream.recv_window.available() as i64,
        };
        assert(self@ =~= m0);
        if !fits {
            return self.break_stream(stream_id, ErrorCode::FlowControlError);
        }
        self.forward_data(stream_id, data, end_stream)
    }

    /// Records response octets that both windows allow, and forwards them.
    fn forward_data(&mut self, stream_id: StreamId, data: &Bytes, end_stream: bool) -> (r: Result<
        (),
        ConnectionError,
    >)
        requires
            old(self).wf(),
            old(self)@.streams.live.contains_key(stream_id.value()),
            octets(*data).len() as u32
                <= old(self)@.streams.live[stream_id.value()].recv_window.window.0,
        ensures
            final(self).wf(),
            up_ends_as(
                old(self)@.forwards_data(stream_id.value(), octets(*data), end_stream),
                final(self)@,
                r,
            ),
    {
        proof {
            reveal(UpModel::forwards_data);
        }
        let len = data.len() as u32;
        match self.streams.get_mut(stream_id) {
            None => return Ok(()),
            Some(stream) => {
                let _ = stream.recv_window.record(len);
            },
        }
        self.summary.data_bytes_received = self.summary.data_bytes_received.saturating_add(
            len as u64,
        );
        let i = find_route(&self.routes, stream_id.get());
        if i < self.routes.len() {
            let mut route = self.routes[i];
            route.pending_conn_release = route.pending_conn_release.saturating_add(len);
            self.routes.set(i, route);
            self.emit(Effect::Buffered(len));
            let copy = data.clone();
            self.tell(
                route.client,
                ServiceEvent::Data { id: StreamId(route.client_id), data: copy, end_stream },
            );
        }
        self.advance_to_end(stream_id, StreamEvent::RecvData { end_stream }, end_stream)
    }

    /// Credits a send window (§6.9).
    fn recv_window_update(&mut self, stream_id: StreamId, increment: u32) -> (r: Result<
        (),
        ConnectionError,
    >)
        requires
            old(self).wf(),
        ensures
            final(self).wf(),
            up_ends_as(old(self)@.takes_credit(stream_id.value(), increment), final(self)@, r),
    {
        proof {
            reveal(UpModel::takes_credit);
        }
        if increment == 0 {
            return if stream_id.is_connection() {
                Err(
                    ConnectionError::with_text(
                        ErrorCode::ProtocolError,
                        "WINDOW_UPDATE with a zero increment on stream 0",
                    ),
                )
            } else {
                self.break_stream(stream_id, ErrorCode::ProtocolError)
            };
        }
        if stream_id.is_connection() {
            return match self.conn_send_window.increase(increment) {
                Ok(()) => Ok(()),
                Err(code) => Err(
                    ConnectionError::with_text(
                        code,
                        "WINDOW_UPDATE overflows the connection window",
                    ),
                ),
            };
        }
        let overflowed = match self.streams.lookup(stream_id) {
            Lookup::Idle => {
                return Err(
                    ConnectionError::new(
                        ErrorCode::ProtocolError,
                        numbered_text(
                            "WINDOW_UPDATE on stream ",
                            stream_id.get(),
                            ", which we never opened",
                        ),
                    ),
                );
            },
            Lookup::Closed => return Ok(()),
            Lookup::Live(stream) => stream.send_window.increase(increment).is_err(),
        };
        if overflowed {
            assert(self@ =~= old(self)@);
            return self.break_stream(stream_id, ErrorCode::FlowControlError);
        }
        self.enqueue_ready(stream_id);
        Ok(())
    }

    /// Answers one client with a 502 because the backend could not, and reports
    /// the failure, which counts against the backend.
    ///
    /// Only possible before the head has been forwarded; afterwards the status
    /// line is already on the client's wire and an abort is the only honest
    /// ending.
    fn fail_stream(&mut self, id: StreamId) -> (r: Result<(), ConnectionError>)
        requires
            old(self).wf(),
        ensures
            final(self).wf(),
            up_ends_as(old(self)@.fails_stream(id.value()), final(self)@, r),
    {
        proof {
            reveal(UpModel::fails_stream);
        }
        let i = find_route(&self.routes, id.get());
        if i < self.routes.len() {
            let route = self.routes[i];
            self.emit(Effect::Failure { client: route.client, id: StreamId(route.client_id) });
            let event = if route.head_sent {
                ServiceEvent::Reset { id: StreamId(route.client_id), code: ErrorCode::InternalError }
            } else {
                ServiceEvent::Head {
                    id: StreamId(route.client_id),
                    response: Response::status(502),
                    end_stream: true,
                }
            };
            self.tell(route.client, event);
        }
        if self.streams.is_live(id) {
            match self.write_rst_stream(id, ErrorCode::Cancel) {
                Ok(()) => {},
                Err(e) => return Err(e),
            }
        }
        self.forget(id);
        Ok(())
    }

    /// Aborts a stream on which the backend broke a rule, and tells its client: a
    /// stream that is gone must not leave anybody waiting for it.
    fn break_stream(&mut self, id: StreamId, code: ErrorCode) -> (r: Result<(), ConnectionError>)
        requires
            old(self).wf(),
        ensures
            final(self).wf(),
            up_ends_as(old(self)@.breaks(id.value(), code), final(self)@, r),
    {
        proof {
            reveal(UpModel::breaks);
        }
        match self.write_rst_stream(id, code) {
            Ok(()) => {},
            Err(e) => return Err(e),
        }
        self.fail_stream(id)
    }

    /// Drives an event through a stream's state machine.
    fn apply_stream_event(&mut self, id: StreamId, event: StreamEvent) -> (r: Result<
        (),
        ConnectionError,
    >)
        requires
            old(self).wf(),
        ensures
            final(self).wf(),
            up_ends_as(old(self)@.advances(id.value(), event), final(self)@, r),
    {
        proof {
            reveal(UpModel::advances);
        }
        match self.streams.apply(id, event) {
            Ok(state) => {
                if state.is_closed() {
                    remove_from_ring(&mut self.ready, id.get());
                }
                Ok(())
            },
            Err(e) => {
                if e.code == ErrorCode::ProtocolError {
                    return Err(
                        ConnectionError::new(
                            ErrorCode::ProtocolError,
                            numbered_text(
                                "frame for upstream stream ",
                                id.get(),
                                ", which is idle",
                            ),
                        ),
                    );
                }
                self.fail_stream(id)
            },
        }
    }

    // ---- sending ------------------------------------------------------------

    /// One visit in the round-robin. `Some(more)` if something was done, `None`
    /// if the stream is stalled.
    fn visit_ready_stream(&mut self, id: StreamId) -> (r: Result<Option<bool>, ConnectionError>)
        requires
            old(self).wf(),
        ensures
            final(self).wf(),
            final(self)@ == old(self)@.visits(id.value()).0,
            match r {
                Ok(v) => old(self)@.visits(id.value()).1 == Ok::<Option<bool>, Fault>(v),
                Err(e) => old(self)@.visits(id.value()).1 == Err::<Option<bool>, Fault>(e@),
            },
    {
        proof {
            reveal(UpModel::visits);
        }
        let conn_window = self.conn_send_window;
        let max_frame_size = self.peer_settings.max_frame_size;
        let (chunk, end_stream, trailers) = match self.streams.get_mut(id) {
            None => return Ok(Some(false)),
            Some(stream) => {
                stream.queued = false;
                let most = budget(stream.send_window, conn_window, max_frame_size);
                if stream.pending_send() > 0 && most == 0 {
                    return Ok(None);
                }
                let ghost q = chunks(stream.send_queue@);
                let chunk = take_from_queue(&mut stream.send_queue, most);
                proof {
                    crate::conn::engine::lemma_taken_len(q, most as nat);
                }
                let drained = stream.send_queue.len() == 0;
                let trailers = if drained {
                    stream.pending_trailers.take()
                } else {
                    None
                };
                let end_stream = drained && stream.send_end_stream && trailers.is_none();
                if chunk.is_empty() && !end_stream && trailers.is_none() {
                    return Ok(Some(false));
                }
                if end_stream || trailers.is_some() {
                    stream.send_end_stream = false;
                }
                let len = chunk.len() as u32;
                if len > 0 {
                    let _ = stream.send_window.consume(len);
                }
                (chunk, end_stream, trailers)
            },
        };
        let len = chunk.len() as u32;
        if len > 0 {
            let _ = self.conn_send_window.consume(len);
        }
        self.send_chunk(id, chunk, end_stream, trailers)
    }

    /// Writes one DATA frame whose credit has been spent, tells the client it
    /// may send that much more, and writes the trailers behind the last.
    fn send_chunk(
        &mut self,
        id: StreamId,
        chunk: Bytes,
        end_stream: bool,
        trailers: Option<Vec<Header>>,
    ) -> (r: Result<Option<bool>, ConnectionError>)
        requires
            old(self).wf(),
            octets(chunk).len() <= u32::MAX,
        ensures
            final(self).wf(),
            ({
                let (m, expected) = old(self)@.sends_chunk(
                    id.value(),
                    octets(chunk),
                    end_stream,
                    trailers_view(trailers),
                );
                &&& final(self)@ == m
                &&& match r {
                    Ok(v) => expected == Ok::<Option<bool>, Fault>(v),
                    Err(e) => expected == Err::<Option<bool>, Fault>(e@),
                }
            }),
    {
        proof {
            reveal(UpModel::sends_chunk);
        }
        let len = chunk.len() as u32;
        if len > 0 || end_stream {
            match self.queue_frame(&Frame::Data { stream_id: id, data: chunk, end_stream }) {
                Ok(()) => {},
                Err(e) => return Err(e),
            }
            match self.apply_stream_event(id, StreamEvent::SendData { end_stream }) {
                Ok(()) => {},
                Err(e) => return Err(e),
            }
        }
        // The backend has taken these octets, so the client may send that many
        // more. This is the request-direction half of the bridge.
        if len > 0 {
            let i = find_route(&self.routes, id.get());
            if i < self.routes.len() {
                let route = self.routes[i];
                self.tell(
                    route.client,
                    ServiceEvent::BodyAccepted { id: StreamId(route.client_id), n: len },
                );
            }
        }
        if let Some(fields) = trailers {
            match self.send_trailers(id, fields) {
                Ok(()) => {},
                Err(e) => return Err(e),
            }
        }
        let ghost m1 = self@;
        let more = match self.streams.get_mut(id) {
            None => false,
            Some(stream) => stream.has_pending_send(),
        };
        assert(self@ =~= m1);
        Ok(Some(more))
    }

    /// Writes a trailer section, which ends the request.
    fn send_trailers(&mut self, id: StreamId, fields: Vec<Header>) -> (r: Result<
        (),
        ConnectionError,
    >)
        requires
            old(self).wf(),
        ensures
            final(self).wf(),
            up_ends_as(
                old(self)@.sends_trailers(id.value(), headers_view(fields@)),
                final(self)@,
                r,
            ),
    {
        let mut block = BytesMut::new();
        self.hpack_enc.encode(&fields, &mut block);
        let block = block.freeze();
        assert(octets(block) =~= old(self)@.enc.encoded(headers_view(fields@)).1);
        match self.queue_frame(
            &Frame::Headers { stream_id: id, block, end_stream: true, end_headers: true },
        ) {
            Ok(()) => {},
            Err(e) => return Err(e),
        }
        self.apply_stream_event(id, StreamEvent::SendHeaders { end_stream: true })
    }

    /// Round-robins the request bodies waiting on window, exactly as the client
    /// side schedules responses.
    pub fn pump_outbound(&mut self) -> (r: Result<(), ConnectionError>)
        requires
            old(self).wf(),
        ensures
            final(self).wf(),
            up_ends_as(old(self)@.pumps(), final(self)@, r),
    {
        proof {
            self.lemma_finite();
        }
        while self.ready.len() != 0 && self.out.len() < MAX_WRITE_QUEUE
            invariant
                self.wf(),
                self@.streams.live.dom().finite(),
                old(self)@.pumps() == self@.pumps(),
            decreases self@.pending.len(), self@.work_left(), self@.ready.len(),
        {
            let ghost m0 = self@;
            proof {
                lemma_laps_progress(m0);
            }
            let mut ring: VecDeque<u32> = VecDeque::new();
            std::mem::swap(&mut ring, &mut self.ready);
            let ghost start = UpModel { ready: Seq::empty(), ..m0 };
            assert(self@ =~= start);
            let mut stalled: VecDeque<u32> = VecDeque::new();
            let mut served: VecDeque<u32> = VecDeque::new();
            let mut wrote = false;
            let mut i: usize = 0;
            assert(ring@.take(0) =~= Seq::empty());
            assert(stalled@ =~= Seq::empty());
            assert(served@ =~= Seq::empty());
            while i < ring.len()
                invariant
                    self.wf(),
                    i <= ring@.len(),
                    m0.streams.live.dom().finite(),
                    old(self)@.pumps() == m0.pumps(),
                    m0.ready == ring@,
                    m0.ready.len() != 0,
                    m0.output.len() < MAX_WRITE_QUEUE,
                    start == (UpModel { ready: Seq::empty(), ..m0 }),
                    up_lap(start, ring@.take(i as int)) == (UpLap {
                        conn: self@,
                        stalled: stalled@,
                        served: served@,
                        wrote,
                        fault: None,
                    }),
                decreases ring@.len() - i,
            {
                let id = ring[i];
                assert(ring@.take(i + 1).drop_last() =~= ring@.take(i as int));
                match self.visit_ready_stream(StreamId(id)) {
                    Ok(None) => stalled.push_back(id),
                    Ok(Some(more)) => {
                        wrote = true;
                        if more {
                            served.push_back(id);
                        }
                    },
                    Err(e) => {
                        proof {
                            lemma_up_lap_stops(start, ring@, i + 1);
                        }
                        return Err(e);
                    },
                }
                i += 1;
            }
            assert(ring@.take(i as int) =~= ring@);
            let ghost l = up_lap(start, m0.ready);
            let mut joined: VecDeque<u32> = VecDeque::new();
            std::mem::swap(&mut joined, &mut self.ready);
            stalled.append(&mut served);
            stalled.append(&mut joined);
            self.ready = rebuild_ring(&mut self.streams, stalled);
            assert(self@ =~= m0.laps().conn);
            if !wrote {
                return Ok(());
            }
        }
        Ok(())
    }

    /// There are only so many live streams.
    proof fn lemma_finite(&self)
        ensures
            self@.streams.live.dom().finite(),
    {
        assert(self@.streams.live.dom() =~= self.streams.live@.dom());
    }

    // ---- the loop -----------------------------------------------------------

    /// Sends our half of the preface: 24 fixed octets, then SETTINGS (§3.4),
    /// then the stream-0 WINDOW_UPDATE that raises the connection window.
    pub fn start(&mut self) -> (r: Result<(), ConnectionError>)
        requires
            old(self).wf(),
        ensures
            final(self).wf(),
            up_ends_as(old(self)@.starts(), final(self)@, r),
    {
        put_slice(&mut self.out, PREFACE.as_bytes());
        let settings = self.local_settings.to_frame();
        proof {
            lemma_queues(self@, settings@);
        }
        match self.queue_frame(&settings) {
            Ok(()) => {},
            Err(e) => return Err(e),
        }
        let increment = connection_window_bootstrap(self.conn_window);
        if increment == 0 {
            return Ok(());
        }
        self.queue_frame(&Frame::WindowUpdate { stream_id: StreamId::connection(), increment })
    }

    /// Acts on every complete frame that has arrived.
    pub fn process_input(&mut self, now: u64) -> (r: Result<(), ConnectionError>)
        requires
            old(self).wf(),
        ensures
            final(self).wf(),
            up_ends_as(old(self)@.drains(now), final(self)@, r),
    {
        loop
            invariant
                self.wf(),
                old(self)@.drains(now) == self@.drains(now),
            decreases self@.input.len(),
        {
            let ghost m0 = self@;
            match self.codec.decode_any(&mut self.read_buf) {
                Ok(None) => return Ok(()),
                Err(e) => return Err(ConnectionError::new(e.code(), e.message())),
                Ok(Some(Decoded::Ignored { kind, stream_id })) => {
                    match self.reject_if_mid_header_block(kind, stream_id) {
                        Ok(()) => {},
                        Err(e) => return Err(e),
                    }
                    assert(self@.input.len() < m0.input.len());
                },
                Ok(Some(Decoded::Frame(frame))) => {
                    let ghost m1 = self@;
                    proof {
                        lemma_handles_untouched(m1, frame@, now);
                    }
                    match self.handle_frame(frame, now) {
                        Ok(()) => {},
                        Err(e) => return Err(e),
                    }
                },
            }
        }
    }

    /// One turn of the loop between two waits. `Ok(false)` when a drain has
    /// finished and the connection may close.
    pub fn turn(&mut self, now: u64) -> (r: Result<bool, ConnectionError>)
        requires
            old(self).wf(),
        ensures
            final(self).wf(),
            up_goes_as(old(self)@.turns(now), final(self)@, r),
    {
        match self.process_input(now) {
            Ok(()) => {},
            Err(e) => return Err(e),
        }
        match self.pump_outbound() {
            Ok(()) => {},
            Err(e) => return Err(e),
        }
        // Checked after every batch of frames, because the thing that ends a
        // drain is the last promised response arriving.
        Ok(!self.peer_drain_complete(now))
    }

    /// Acts on what woke the loop. `Ok(false)` ends the connection quietly.
    pub fn wake(&mut self, wake: Wake, now: u64) -> (r: Result<bool, ConnectionError>)
        requires
            old(self).wf(),
        ensures
            final(self).wf(),
            up_goes_as(old(self)@.wakes(wake@, now), final(self)@, r),
    {
        match wake {
            Wake::DrainDeadline => Ok(true),
            Wake::ProbeTimer => self.probe_timer(now),
            Wake::Wrote { n } => {
                if n == 0 {
                    return Ok(false);
                }
                let held = self.out.len();
                if n < held {
                    let _ = self.out.split_to(n);
                    assert(self@.output =~= old(self)@.output.skip(n as int));
                } else {
                    self.out.clear();
                }
                Ok(true)
            },
            Wake::WriteClosed => Ok(false),
            Wake::Message(msg) => match self.handle_message(msg) {
                Ok(()) => Ok(true),
                Err(e) => Err(e),
            },
            Wake::Abandoned => Ok(false),
            Wake::Received(data) => {
                if data.is_empty() {
                    return Ok(false);
                }
                put_slice(&mut self.read_buf, as_slice(&data));
                self.probe.heard(now);
                Ok(true)
            },
            Wake::ReadClosed => Ok(false),
        }
    }

    /// The probe timer fired: send the PING, or conclude the backend is gone.
    ///
    /// `false` ends the connection, quietly: the backend has broken no rule that
    /// we can see, it has simply stopped talking.
    pub fn probe_timer(&mut self, now: u64) -> (r: Result<bool, ConnectionError>)
        requires
            old(self).wf(),
        ensures
            final(self).wf(),
            up_goes_as(old(self)@.probes(now), final(self)@, r),
    {
        proof {
            reveal(UpModel::probes);
        }
        match self.probe.due(now) {
            ProbeAction::Nothing => Ok(true),
            ProbeAction::Send(nonce) => {
                match self.queue_frame(&Frame::Ping { data: nonce, ack: false }) {
                    Ok(()) => {},
                    Err(e) => return Err(e),
                }
                self.summary.probes_sent = self.summary.probes_sent.saturating_add(1);
                self.emit(Effect::ProbeSent);
                Ok(true)
            },
            ProbeAction::Expired => {
                self.summary.probe_timed_out = true;
                // Out of rotation now, not when the connection finally unwinds.
                self.emit(Effect::Retire);
                Ok(false)
            },
        }
    }

    /// When the loop next needs waking: the deadline of a drain, and the probe.
    pub fn next_wake(&self) -> (r: (Option<u64>, Option<u64>))
        requires
            self.wf(),
        ensures
            r.0 == (match self@.draining {
                Some((_, at)) => Some(at),
                None => None,
            }),
            r.1 == (if self@.probe.idle == 0 {
                None
            } else {
                match self@.probe.outstanding {
                    Some(o) => Some(o.deadline),
                    None => Some(
                        crate::upstream::probe::later(
                            self@.probe.last_heard,
                            self@.probe.idle,
                        ),
                    ),
                }
            }),
    {
        let drain = match self.peer_draining {
            Some((_, at)) => Some(at),
            None => None,
        };
        (drain, self.probe.next_wake())
    }

    /// Reports a connection error to the backend as GOAWAY.
    pub fn fail(&mut self, err: ConnectionError)
        requires
            old(self).wf(),
        ensures
            final(self).wf(),
            final(self)@ == old(self)@.fails(err@),
    {
        let go_away = Frame::GoAway {
            last_stream_id: self.streams.highest_local_id(),
            error_code: err.code,
            debug_data: text_bytes(err.debug.as_str()),
        };
        let _ = self.queue_frame(&go_away);
    }

    /// The octets waiting for the socket.
    pub fn output(&self) -> (out: &[u8])
        requires
            self.wf(),
        ensures
            out@ == self@.output,
    {
        as_slice_mut(&self.out)
    }

    /// Hands out what the connection wants done outside it, in order.
    pub fn take_effects(&mut self) -> (list: Vec<Effect>)
        requires
            old(self).wf(),
        ensures
            final(self).wf(),
            effects_view(list@) == old(self)@.effects,
            final(self)@ == (UpModel { effects: Seq::empty(), ..old(self)@ }),
    {
        let mut list: Vec<Effect> = Vec::new();
        std::mem::swap(&mut list, &mut self.effects);
        assert(effects_view(self.effects@) =~= Seq::empty());
        list
    }

    /// What the connection has done so far.
    pub fn summary(&self) -> (s: UpstreamSummary)
        requires
            self.wf(),
        ensures
            s == self@.summary,
    {
        self.summary
    }
}

/// A lap that faulted goes no further.
proof fn lemma_up_lap_stops(m: UpModel, ids: Seq<u32>, k: int)
    requires
        0 <= k <= ids.len(),
        up_lap(m, ids.take(k)).fault is Some,
    ensures
        up_lap(m, ids) == up_lap(m, ids.take(k)),
    decreases ids.len(),
{
    if k < ids.len() {
        assert(ids.drop_last().take(k) =~= ids.take(k));
        lemma_up_lap_stops(m, ids.drop_last(), k);
    } else {
        assert(ids.take(k) =~= ids);
    }
}

} // verus!
