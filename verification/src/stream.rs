//! Per-stream lifecycle: the RFC 9113 §5.1 state machine.
//!
//! [`StreamState`] is a pure function of (state, event) and knows nothing of
//! stream ids, so it returns a bare [`ErrorCode`]. [`StreamTable`] owns the ids,
//! the concurrency budget and the per-stream windows, so it is the one that can
//! name the stream in a [`StreamError`].

use crate::conn::{ErrorCode, StreamError};
use crate::flow::{floor_i32, RecvWindow, Window, MAX_WINDOW_SIZE};
use crate::hpack::{headers_view, Header, HeaderModel};
use crate::octets::octets;
use bytes::Bytes;
use std::collections::hash_map::Entry;
use std::collections::{HashMap, VecDeque};
use vstd::prelude::*;
use vstd::std_specs::iter::IteratorSpec;

verus! {

broadcast use vstd::std_specs::hash::group_hash_axioms;

/// The highest id either endpoint can open: ids are 31 bits wide (§5.1.1).
pub const MAX_LOCAL_STREAM_ID: u32 = 0x7fff_ffff;

/// A stream identifier (RFC 9113 §5.1.1).
///
/// The high bit is reserved and zero on the wire, so only the low 31 bits are
/// significant. Stream `0` is the connection control stream; nonzero odd ids
/// are client-initiated and even ids server-initiated.
#[derive(Clone, Copy, PartialEq, Eq, PartialOrd, Ord, Hash, Debug, Structural)]
pub struct StreamId(pub(crate) u32);

impl StreamId {
    /// The numeric value of the id.
    pub open(crate) spec fn value(self) -> u32 {
        self.0
    }

    /// The connection control stream: SETTINGS, PING, GOAWAY and
    /// connection-level WINDOW_UPDATE ride stream 0.
    pub fn connection() -> (id: Self)
        ensures
            id.value() == 0,
    {
        StreamId(0)
    }

    /// Builds an id from a 32-bit wire value, masking off the reserved bit.
    pub fn new(raw: u32) -> (id: Self)
        ensures
            id.value() == low31(raw),
    {
        proof {
            lemma_low31(raw);
        }
        StreamId(raw & 0x7fff_ffff)
    }

    /// The 31-bit numeric value.
    pub fn get(self) -> (v: u32)
        ensures
            v == self.value(),
    {
        self.0
    }

    /// Is this the connection control stream?
    pub fn is_connection(self) -> (b: bool)
        ensures
            b == (self.value() == 0),
    {
        self.0 == 0
    }

    /// Client-initiated streams are the odd ids (§5.1.1).
    pub fn is_client_initiated(self) -> (b: bool)
        ensures
            b == (self.value() % 2 == 1),
    {
        self.0 % 2 == 1
    }

    /// Server-initiated streams are the nonzero even ids.
    pub fn is_server_initiated(self) -> (b: bool)
        ensures
            b == (self.value() != 0 && self.value() % 2 == 0),
    {
        self.0 != 0 && self.0 % 2 == 0
    }
}

/// The low 31 bits of a wire value.
pub open spec fn low31(v: u32) -> u32 {
    v % 0x8000_0000
}

/// Masking off the reserved bit is reduction modulo 2^31.
pub proof fn lemma_low31(v: u32)
    ensures
        v & 0x7fff_ffff == low31(v),
{
    assert(v & 0x7fff_ffff == v % 0x8000_0000) by (bit_vector);
}

/// The lifecycle states a stream moves through (RFC 9113 §5.1). The reserved
/// (push) states are omitted: push is disabled.
#[derive(Clone, Copy, PartialEq, Eq, Debug, Structural)]
pub enum StreamState {
    Idle,
    Open,
    HalfClosedLocal,
    HalfClosedRemote,
    Closed,
}

impl Default for StreamState {
    fn default() -> (s: Self)
        ensures
            s == StreamState::Idle,
    {
        StreamState::Idle
    }
}

/// The events that drive a stream between states. `end_stream` carries the
/// END_STREAM flag.
#[derive(Clone, Copy, PartialEq, Eq, Debug, Structural)]
pub enum StreamEvent {
    SendHeaders { end_stream: bool },
    RecvHeaders { end_stream: bool },
    SendData { end_stream: bool },
    RecvData { end_stream: bool },
    SendRstStream,
    RecvRstStream,
}

impl StreamEvent {
    /// RST_STREAM, in either direction.
    pub open spec fn is_reset(self) -> bool {
        self is SendRstStream || self is RecvRstStream
    }

    /// Something this endpoint sends other than a reset.
    pub open spec fn is_send(self) -> bool {
        self is SendHeaders || self is SendData
    }

    /// Whether the event carries END_STREAM.
    pub open spec fn ends(self) -> bool {
        match self {
            StreamEvent::SendHeaders { end_stream } => end_stream,
            StreamEvent::RecvHeaders { end_stream } => end_stream,
            StreamEvent::SendData { end_stream } => end_stream,
            StreamEvent::RecvData { end_stream } => end_stream,
            _ => false,
        }
    }
}

impl StreamState {
    /// Whether this endpoint's direction is still open.
    pub open spec fn local_open(self) -> bool {
        self is Open || self is HalfClosedRemote
    }

    /// Whether the peer's direction is still open.
    pub open spec fn remote_open(self) -> bool {
        self is Open || self is HalfClosedLocal
    }

    /// The state in which exactly the given directions are open.
    pub open spec fn of_directions(local: bool, remote: bool) -> StreamState {
        if local && remote {
            StreamState::Open
        } else if remote {
            StreamState::HalfClosedLocal
        } else if local {
            StreamState::HalfClosedRemote
        } else {
            StreamState::Closed
        }
    }

    /// What §5.1 makes of an event.
    ///
    /// HEADERS opens an idle stream in both directions, and nothing else may
    /// touch one. A reset closes any other stream. Anything else needs its own
    /// direction open, and END_STREAM closes that direction.
    pub open spec fn after(self, event: StreamEvent) -> Result<StreamState, ErrorCode> {
        let opens = event is SendHeaders || event is RecvHeaders;
        let local = self.local_open() || self is Idle;
        let remote = self.remote_open() || self is Idle;
        if self is Idle && !opens {
            Err(ErrorCode::ProtocolError)
        } else if event.is_reset() {
            Ok(StreamState::Closed)
        } else if event.is_send() {
            if local {
                Ok(StreamState::of_directions(!event.ends(), remote))
            } else {
                Err(ErrorCode::StreamClosed)
            }
        } else {
            if remote {
                Ok(StreamState::of_directions(local, !event.ends()))
            } else {
                Err(ErrorCode::StreamClosed)
            }
        }
    }

    /// Has this stream finished, in both directions?
    pub fn is_closed(self) -> (b: bool)
        ensures
            b == (self is Closed),
    {
        matches!(self, StreamState::Closed)
    }

    /// May the peer still send us DATA or HEADERS?
    pub fn peer_can_send(self) -> (b: bool)
        ensures
            b == self.remote_open(),
    {
        matches!(self, StreamState::Open | StreamState::HalfClosedLocal)
    }

    /// May we still send DATA or HEADERS?
    pub fn we_can_send(self) -> (b: bool)
        ensures
            b == self.local_open(),
    {
        matches!(self, StreamState::Open | StreamState::HalfClosedRemote)
    }

    /// Applies `event`, returning the next state or the error code for an
    /// illegal transition: `STREAM_CLOSED` where the stream existed and is
    /// finished in the event's direction, `PROTOCOL_ERROR` where it is idle.
    pub fn transition(self, event: StreamEvent) -> (r: Result<StreamState, ErrorCode>)
        ensures
            r == self.after(event),
    {
        match (self, event) {
            (StreamState::Idle, StreamEvent::SendHeaders { end_stream }) => Ok(
                if end_stream {
                    StreamState::HalfClosedLocal
                } else {
                    StreamState::Open
                },
            ),
            (StreamState::Idle, StreamEvent::RecvHeaders { end_stream }) => Ok(
                if end_stream {
                    StreamState::HalfClosedRemote
                } else {
                    StreamState::Open
                },
            ),
            (StreamState::Idle, _) => Err(ErrorCode::ProtocolError),
            (_, StreamEvent::SendRstStream | StreamEvent::RecvRstStream) => Ok(StreamState::Closed),
            (
                StreamState::Open,
                StreamEvent::SendHeaders { end_stream } | StreamEvent::SendData { end_stream },
            ) => Ok(
                if end_stream {
                    StreamState::HalfClosedLocal
                } else {
                    StreamState::Open
                },
            ),
            (
                StreamState::Open,
                StreamEvent::RecvHeaders { end_stream } | StreamEvent::RecvData { end_stream },
            ) => Ok(
                if end_stream {
                    StreamState::HalfClosedRemote
                } else {
                    StreamState::Open
                },
            ),
            (
                StreamState::HalfClosedLocal,
                StreamEvent::RecvHeaders { end_stream } | StreamEvent::RecvData { end_stream },
            ) => Ok(
                if end_stream {
                    StreamState::Closed
                } else {
                    StreamState::HalfClosedLocal
                },
            ),
            (StreamState::HalfClosedLocal, _) => Err(ErrorCode::StreamClosed),
            (
                StreamState::HalfClosedRemote,
                StreamEvent::SendHeaders { end_stream } | StreamEvent::SendData { end_stream },
            ) => Ok(
                if end_stream {
                    StreamState::Closed
                } else {
                    StreamState::HalfClosedRemote
                },
            ),
            (StreamState::HalfClosedRemote, _) => Err(ErrorCode::StreamClosed),
            (StreamState::Closed, _) => Err(ErrorCode::StreamClosed),
        }
    }
}

// ---------------------------------------------------------------------------
// One live stream
// ---------------------------------------------------------------------------

/// One live stream's state and buffers. Only live streams get one: a stream
/// that reaches `Closed` is dropped from the table.
#[derive(Debug)]
pub struct Stream {
    pub state: StreamState,
    /// Credit the peer gave us for this stream: how much DATA we may send.
    pub send_window: Window,
    /// Credit we gave the peer for this stream.
    pub recv_window: RecvWindow,
    /// Body octets waiting for the scheduler, oldest chunk first.
    pub send_queue: VecDeque<Bytes>,
    /// Whether END_STREAM rides the last chunk in `send_queue`.
    pub send_end_stream: bool,
    /// Whether this stream is already in the connection's round-robin ring.
    pub queued: bool,
    /// The body length the request declared via `content-length`, if any.
    pub content_length: Option<u64>,
    /// How much of the body has arrived.
    pub data_received: u64,
    /// Whether inbound DATA is mirrored back as the response body.
    pub echoing: bool,
    /// A trailer section to send once `send_queue` has drained.
    pub pending_trailers: Option<Vec<Header>>,
}

/// What a stream holds.
#[verifier::ext_equal]
pub struct StreamModel {
    pub state: StreamState,
    pub send_window: Window,
    pub recv_window: RecvWindow,
    pub send_queue: Seq<Seq<u8>>,
    pub send_end_stream: bool,
    pub queued: bool,
    pub content_length: Option<u64>,
    pub data_received: u64,
    pub echoing: bool,
    pub pending_trailers: Option<Seq<HeaderModel>>,
}

/// The chunks of a queue, each as its octets.
pub open spec fn chunks(queue: Seq<Bytes>) -> Seq<Seq<u8>> {
    Seq::new(queue.len(), |i: int| octets(queue[i]))
}

/// How many octets a queue of chunks holds.
pub open spec fn total_len(queue: Seq<Seq<u8>>) -> nat
    decreases queue.len(),
{
    if queue.len() == 0 {
        0
    } else {
        total_len(queue.drop_last()) + queue.last().len()
    }
}

impl View for Stream {
    type V = StreamModel;

    open spec fn view(&self) -> StreamModel {
        StreamModel {
            state: self.state,
            send_window: self.send_window,
            recv_window: self.recv_window,
            send_queue: chunks(self.send_queue@),
            send_end_stream: self.send_end_stream,
            queued: self.queued,
            content_length: self.content_length,
            data_received: self.data_received,
            echoing: self.echoing,
            pending_trailers: match self.pending_trailers {
                Some(fields) => Some(headers_view(fields@)),
                None => None,
            },
        }
    }
}

/// A stream nothing has happened on yet.
pub open spec fn fresh_stream(send_window: i32, recv_window: i32) -> StreamModel {
    StreamModel {
        state: StreamState::Idle,
        send_window: Window(send_window),
        recv_window: RecvWindow {
            window: Window(recv_window),
            unreleased: 0,
            initial: recv_window,
        },
        send_queue: Seq::empty(),
        send_end_stream: false,
        queued: false,
        content_length: None,
        data_received: 0,
        echoing: false,
        pending_trailers: None,
    }
}

impl StreamModel {
    /// The body that arrived is the one `content-length` promised.
    pub open spec fn length_kept(self) -> bool {
        self.content_length is None || self.content_length->0 == self.data_received
    }

    /// There is something the scheduler could write.
    pub open spec fn wants_to_send(self) -> bool {
        self.send_queue.len() > 0 || self.send_end_stream
    }
}

impl Stream {
    fn new(send_window: i32, recv_window: i32) -> (s: Self)
        ensures
            s@ == fresh_stream(send_window, recv_window),
    {
        let s = Stream {
            state: StreamState::Idle,
            send_window: Window::new(send_window),
            recv_window: RecvWindow::new(recv_window),
            send_queue: VecDeque::new(),
            send_end_stream: false,
            queued: false,
            content_length: None,
            data_received: 0,
            echoing: false,
            pending_trailers: None,
        };
        assert(s@.send_queue =~= Seq::empty());
        s
    }

    /// Whether the body that arrived matches what `content-length` promised
    /// (§8.1.2.6). Only meaningful once the request body has ended.
    pub fn content_length_matches(&self) -> (b: bool)
        ensures
            b == self@.length_kept(),
    {
        match self.content_length {
            Some(declared) => declared == self.data_received,
            None => true,
        }
    }

    /// Octets still queued for this stream, held at the largest `usize`.
    pub fn pending_send(&self) -> (n: usize)
        ensures
            n == (if total_len(self@.send_queue) > usize::MAX {
                usize::MAX as nat
            } else {
                total_len(self@.send_queue)
            }),
    {
        let mut n: usize = 0;
        let mut i: usize = 0;
        let ghost q = self@.send_queue;
        while i < self.send_queue.len()
            invariant
                q == self@.send_queue,
                i <= self.send_queue@.len() == q.len(),
                n == (if total_len(q.take(i as int)) > usize::MAX {
                    usize::MAX as nat
                } else {
                    total_len(q.take(i as int))
                }),
            decreases self.send_queue@.len() - i,
        {
            proof {
                assert(q.take(i + 1).drop_last() =~= q.take(i as int));
                assert(q.take(i + 1).last() == octets(self.send_queue@[i as int]));
            }
            n = n.saturating_add(self.send_queue[i].len());
            i += 1;
        }
        assert(q.take(i as int) =~= q);
        n
    }

    /// Is there anything the scheduler could write for this stream: body octets
    /// or a bare END_STREAM to close it out?
    pub fn has_pending_send(&self) -> (b: bool)
        ensures
            b == self@.wants_to_send(),
    {
        self.send_queue.len() != 0 || self.send_end_stream
    }
}

// ---------------------------------------------------------------------------
// The table of live streams
// ---------------------------------------------------------------------------

/// Why an attempt to open a stream was rejected.
#[derive(Clone, Copy, PartialEq, Eq, Debug)]
pub enum OpenRejection {
    /// The id itself is illegal: even, or not strictly greater than every id
    /// seen. Connection `PROTOCOL_ERROR` (§5.1.1).
    Protocol(&'static str),
    /// The concurrency limit is already met. Stream `REFUSED_STREAM` (§5.1.2),
    /// which promises that nothing was processed.
    Refused,
}

/// What a rejection says.
pub enum Rejection {
    Protocol(Seq<char>),
    Refused,
}

impl View for OpenRejection {
    type V = Rejection;

    open spec fn view(&self) -> Rejection {
        match self {
            OpenRejection::Protocol(why) => Rejection::Protocol(why@),
            OpenRejection::Refused => Rejection::Refused,
        }
    }
}

/// What a frame's stream id refers to.
pub enum Lookup<'a> {
    /// A stream that is open or half-closed.
    Live(&'a mut Stream),
    /// An id at or below the highest seen, with no live entry: the stream ran
    /// to completion or was reset.
    Closed,
    /// An id above everything seen: never opened.
    Idle,
}

impl<'a> Lookup<'a> {
    /// Whether the id was never opened.
    pub fn is_idle(&self) -> (b: bool)
        ensures
            b == (*self is Idle),
    {
        matches!(self, Lookup::Idle)
    }
}

/// Every live stream on one connection, plus the §5.1.1 / §5.1.2 rules that no
/// individual stream can enforce.
///
/// Closed streams are removed, not tombstoned: an id at or below the highest
/// one seen with no entry is closed.
#[derive(Debug)]
pub struct StreamTable {
    pub live: HashMap<u32, Stream>,
    /// Highest peer-initiated id seen, for the ordering rule and for GOAWAY.
    pub highest_peer: u32,
    /// Highest id this endpoint opened itself.
    pub highest_local: u32,
    /// How many streams may be open or half-closed at once (§5.1.2).
    pub max_concurrent: u32,
    /// Initial send window for a new stream: the peer's `INITIAL_WINDOW_SIZE`.
    pub initial_send_window: i32,
    /// Initial receive window for a new stream: the one we advertise.
    pub initial_recv_window: i32,
    /// The high-water mark.
    pub peak: u32,
    /// How many streams were ever opened.
    pub opened_total: u64,
}

/// What the table holds.
#[verifier::ext_equal]
pub struct TableModel {
    pub live: Map<u32, StreamModel>,
    pub highest_peer: u32,
    pub highest_local: u32,
    pub max_concurrent: u32,
    pub initial_send_window: i32,
    pub initial_recv_window: i32,
    pub peak: u32,
    pub opened_total: u64,
}

/// The live streams, each as what it holds.
pub open spec fn live_view(live: Map<u32, Stream>) -> Map<u32, StreamModel> {
    live.map_values(|s: Stream| s@)
}

impl View for StreamTable {
    type V = TableModel;

    open spec fn view(&self) -> TableModel {
        TableModel {
            live: live_view(self.live@),
            highest_peer: self.highest_peer,
            highest_local: self.highest_local,
            max_concurrent: self.max_concurrent,
            initial_send_window: self.initial_send_window,
            initial_recv_window: self.initial_recv_window,
            peak: self.peak,
            opened_total: self.opened_total,
        }
    }
}

/// `a + b` held between the bounds of a 32-bit signed integer.
pub open spec fn sum_i32(a: i32, b: i32) -> i32 {
    if a + b > i32::MAX {
        i32::MAX
    } else if a + b < i32::MIN {
        i32::MIN
    } else {
        (a + b) as i32
    }
}

/// The larger of the peak so far and a live count.
pub open spec fn peak_with(peak: u32, live: nat) -> u32 {
    if live > peak {
        if live > u32::MAX {
            u32::MAX
        } else {
            live as u32
        }
    } else {
        peak
    }
}

impl TableModel {
    /// Whether an id was ever opened.
    pub open spec fn seen(self, id: u32) -> bool {
        id <= self.highest_peer || id <= self.highest_local
    }

    /// Every live stream was opened, and none is closed: the shape of a table
    /// between two calls.
    pub open spec fn wf(self) -> bool {
        &&& self.live.dom().finite()
        &&& forall|id: u32| #[trigger] self.live.contains_key(id) ==> self.seen(id)
        &&& forall|id: u32| #[trigger]
            self.live.contains_key(id) ==> !(self.live[id].state is Closed)
    }

    /// The table with one more stream, freshly opened.
    pub open spec fn with_fresh(self, id: u32) -> TableModel {
        let live = self.live.insert(
            id,
            fresh_stream(self.initial_send_window, self.initial_recv_window),
        );
        TableModel {
            live,
            peak: peak_with(self.peak, live.len()),
            opened_total: if self.opened_total < u64::MAX {
                (self.opened_total + 1) as u64
            } else {
                self.opened_total
            },
            ..self
        }
    }

    /// What a peer's attempt to open `id` does: the table after it, and why it
    /// was rejected if it was.
    pub open spec fn peer_opens(self, id: u32) -> (TableModel, Option<Rejection>) {
        if id % 2 != 1 {
            (self, Some(Rejection::Protocol("a client may only open odd-numbered streams"@)))
        } else if id <= self.highest_peer {
            (self, Some(Rejection::Protocol("stream ids must strictly increase"@)))
        } else if self.live.len() >= self.max_concurrent {
            (TableModel { highest_peer: id, ..self }, Some(Rejection::Refused))
        } else {
            (TableModel { highest_peer: id, ..self }.with_fresh(id), None)
        }
    }

    /// What opening `id` from this side does.
    pub open spec fn locally_opens(self, id: u32) -> (TableModel, Option<Rejection>) {
        if id % 2 != 1 {
            (self, Some(Rejection::Protocol("a client may only open odd-numbered streams"@)))
        } else if id <= self.highest_local {
            (self, Some(Rejection::Protocol("stream ids must strictly increase"@)))
        } else if self.live.len() >= self.max_concurrent {
            (self, Some(Rejection::Refused))
        } else {
            (TableModel { highest_local: id, ..self }.with_fresh(id), None)
        }
    }

    /// The table without `id`.
    pub open spec fn without(self, id: u32) -> TableModel {
        TableModel { live: self.live.remove(id), ..self }
    }

    /// The table with `id`'s entry replaced.
    pub open spec fn with(self, id: u32, s: StreamModel) -> TableModel {
        TableModel { live: self.live.insert(id, s), ..self }
    }

    /// What applying an event to `id` does. A stream that lands in `Closed`
    /// leaves the table; an illegal event changes nothing.
    pub open spec fn applies(self, id: u32, event: StreamEvent) -> (
        TableModel,
        Result<StreamState, ErrorCode>,
    ) {
        if !self.live.contains_key(id) {
            (
                self,
                Err(
                    if self.seen(id) {
                        ErrorCode::StreamClosed
                    } else {
                        ErrorCode::ProtocolError
                    },
                ),
            )
        } else {
            match self.live[id].state.after(event) {
                Ok(next) => (
                    if next is Closed {
                        self.without(id)
                    } else {
                        self.with(id, StreamModel { state: next, ..self.live[id] })
                    },
                    Ok(next),
                ),
                Err(code) => (self, Err(code)),
            }
        }
    }

    /// Every live stream's window can take `delta`.
    pub open spec fn delta_fits(self, delta: i32) -> bool {
        forall|id: u32| #[trigger]
            self.live.contains_key(id) ==> self.live[id].send_window.0 + delta <= MAX_WINDOW_SIZE
    }

    /// A stream whose send window moved by `delta`.
    pub open spec fn moved(s: StreamModel, delta: i32) -> StreamModel {
        StreamModel { send_window: Window(floor_i32(s.send_window.0 + delta) as i32), ..s }
    }

    /// The table in which every live stream's window moved by `delta`, and new
    /// streams start from the moved initial window.
    pub open spec fn all_moved(self, delta: i32) -> TableModel {
        TableModel {
            live: self.live.map_values(|s: StreamModel| TableModel::moved(s, delta)),
            initial_send_window: sum_i32(self.initial_send_window, delta),
            ..self
        }
    }
}

impl TableModel {
    /// What a change of the peer's initial window does: every live stream's
    /// window moves, unless one cannot.
    pub open spec fn window_moved(self, delta: i32) -> (TableModel, Result<(), ErrorCode>) {
        if self.delta_fits(delta) {
            (self.all_moved(delta), Ok(()))
        } else {
            (
                TableModel {
                    initial_send_window: sum_i32(self.initial_send_window, delta),
                    ..self
                },
                Err(ErrorCode::FlowControlError),
            )
        }
    }
}

impl StreamTable {
    pub fn new(max_concurrent: u32, initial_send_window: i32, initial_recv_window: i32) -> (t: Self)
        ensures
            t@ == (TableModel {
                live: Map::empty(),
                highest_peer: 0,
                highest_local: 0,
                max_concurrent,
                initial_send_window,
                initial_recv_window,
                peak: 0,
                opened_total: 0,
            }),
            t@.wf(),
    {
        let t = StreamTable {
            live: HashMap::new(),
            highest_peer: 0,
            highest_local: 0,
            max_concurrent,
            initial_send_window,
            initial_recv_window,
            peak: 0,
            opened_total: 0,
        };
        assert(t@.live =~= Map::empty());
        t
    }

    /// The view's live map has as many entries as the map itself.
    proof fn lemma_len(&self)
        ensures
            self@.live.len() == self.live@.len(),
            self@.live.dom() == self.live@.dom(),
    {
        assert(self@.live.dom() =~= self.live@.dom());
    }

    /// Streams currently open or half-closed.
    pub fn live_count(&self) -> (n: usize)
        ensures
            n == self@.live.len(),
    {
        proof {
            self.lemma_len();
        }
        self.live.len()
    }

    /// The most streams that were ever live at once.
    pub fn peak_concurrent(&self) -> (n: u32)
        ensures
            n == self@.peak,
    {
        self.peak
    }

    /// How many streams were opened over this connection's lifetime.
    pub fn opened(&self) -> (n: u64)
        ensures
            n == self@.opened_total,
    {
        self.opened_total
    }

    /// Highest peer-initiated id seen: GOAWAY's `last_stream_id` (§6.8).
    pub fn highest_peer_id(&self) -> (id: StreamId)
        ensures
            id.value() == self@.highest_peer,
    {
        StreamId(self.highest_peer)
    }

    /// Highest id this endpoint opened.
    pub fn highest_local_id(&self) -> (id: StreamId)
        ensures
            id.value() == self@.highest_local,
    {
        StreamId(self.highest_local)
    }

    /// Adopts the peer's limit on concurrent streams.
    pub fn set_max_concurrent(&mut self, max: u32)
        ensures
            final(self)@ == (TableModel { max_concurrent: max, ..old(self)@ }),
    {
        self.max_concurrent = max;
    }

    /// Whether the limit leaves room for one more stream.
    pub fn can_open_local(&self) -> (b: bool)
        ensures
            b == (self@.live.len() < self@.max_concurrent),
    {
        proof {
            self.lemma_len();
        }
        (self.live.len() as u64) < self.max_concurrent as u64
    }

    /// Puts a fresh stream in the table.
    fn insert_fresh(&mut self, id: u32)
        ensures
            final(self)@ == old(self)@.with_fresh(id),
    {
        let stream = Stream::new(self.initial_send_window, self.initial_recv_window);
        self.live.insert(id, stream);
        if self.opened_total < u64::MAX {
            self.opened_total = self.opened_total + 1;
        }
        let live = self.live.len() as u64;
        if live > self.peak as u64 {
            self.peak = if live > u32::MAX as u64 {
                u32::MAX
            } else {
                live as u32
            };
        }
        proof {
            assert(self@.live =~= old(self)@.live.insert(
                id,
                fresh_stream(old(self).initial_send_window, old(self).initial_recv_window),
            ));
            self.lemma_len();
        }
    }

    /// Admits a new peer-initiated stream, enforcing the id and concurrency
    /// rules. On success the stream exists in the `Idle` state, ready for its
    /// `RecvHeaders` event.
    pub fn open_peer(&mut self, id: StreamId) -> (r: Result<&mut Stream, OpenRejection>)
        ensures
            match r {
                Ok(s) => {
                    &&& old(self)@.peer_opens(id.value()).1 is None
                    &&& (*s)@ == old(self)@.peer_opens(id.value()).0.live[id.value()]
                    &&& final(self)@ == old(self)@.peer_opens(id.value()).0.with(
                        id.value(),
                        (*final(s))@,
                    )
                },
                Err(e) => {
                    &&& old(self)@.peer_opens(id.value()).1 == Some(e@)
                    &&& final(self)@ == old(self)@.peer_opens(id.value()).0
                },
            },
    {
        if !id.is_client_initiated() {
            return Err(OpenRejection::Protocol("a client may only open odd-numbered streams"));
        }
        if id.0 <= self.highest_peer {
            return Err(OpenRejection::Protocol("stream ids must strictly increase"));
        }
        proof {
            self.lemma_len();
        }
        if self.live.len() as u64 >= self.max_concurrent as u64 {
            // Note the id anyway: it is about to be reset, and a later GOAWAY
            // must not claim it was never seen.
            self.highest_peer = id.0;
            return Err(OpenRejection::Refused);
        }
        self.highest_peer = id.0;
        self.insert_fresh(id.0);
        match self.get_mut(id) {
            Some(stream) => Ok(stream),
            None => {
                assert(false);
                Err(OpenRejection::Refused)
            },
        }
    }

    /// Opens a stream from this side, under the same id and concurrency rules.
    pub fn open_local(&mut self, id: StreamId) -> (r: Result<(), OpenRejection>)
        ensures
            final(self)@ == old(self)@.locally_opens(id.value()).0,
            match r {
                Ok(()) => old(self)@.locally_opens(id.value()).1 is None,
                Err(e) => old(self)@.locally_opens(id.value()).1 == Some(e@),
            },
    {
        if !id.is_client_initiated() {
            return Err(OpenRejection::Protocol("a client may only open odd-numbered streams"));
        }
        if id.0 <= self.highest_local {
            return Err(OpenRejection::Protocol("stream ids must strictly increase"));
        }
        if !self.can_open_local() {
            return Err(OpenRejection::Refused);
        }
        self.highest_local = id.0;
        self.insert_fresh(id.0);
        Ok(())
    }

    /// Resolves a frame's stream id against the table.
    pub fn lookup(&mut self, id: StreamId) -> (r: Lookup<'_>)
        ensures
            match r {
                Lookup::Live(s) => {
                    &&& old(self)@.live.contains_key(id.value())
                    &&& (*s)@ == old(self)@.live[id.value()]
                    &&& final(self)@ == old(self)@.with(id.value(), (*final(s))@)
                },
                Lookup::Closed => {
                    &&& !old(self)@.live.contains_key(id.value())
                    &&& old(self)@.seen(id.value())
                    &&& final(self)@ == old(self)@
                },
                Lookup::Idle => {
                    &&& !old(self)@.live.contains_key(id.value())
                    &&& !old(self)@.seen(id.value())
                    &&& final(self)@ == old(self)@
                },
            },
    {
        let seen = id.0 <= self.highest_peer || id.0 <= self.highest_local;
        match self.get_mut(id) {
            Some(stream) => Lookup::Live(stream),
            None => if seen {
                Lookup::Closed
            } else {
                Lookup::Idle
            },
        }
    }

    /// The live stream with this id, if there is one.
    pub fn get_mut(&mut self, id: StreamId) -> (r: Option<&mut Stream>)
        ensures
            match r {
                Some(s) => {
                    &&& old(self)@.live.contains_key(id.value())
                    &&& (*s)@ == old(self)@.live[id.value()]
                    &&& final(self)@ == old(self)@.with(id.value(), (*final(s))@)
                },
                None => {
                    &&& !old(self)@.live.contains_key(id.value())
                    &&& final(self)@ == old(self)@
                },
            },
    {
        let ghost before = self.live@;
        let r = match self.live.entry(id.0) {
            Entry::Occupied(entry) => Some(entry.into_mut()),
            Entry::Vacant(_) => None,
        };
        proof {
            assert(forall|s: Stream| #[trigger]
                live_view(before.insert(id.0, s)) =~= live_view(before).insert(id.0, s@));
            assert(!before.contains_key(id.0) ==> before.remove(id.0) =~= before);
        }
        r
    }

    /// Whether the stream is live.
    pub fn is_live(&self, id: StreamId) -> (b: bool)
        ensures
            b == self@.live.contains_key(id.value()),
    {
        self.live.contains_key(&id.0)
    }

    /// Applies `event` to `id`, retiring the stream if it lands in `Closed`.
    /// An illegal transition becomes a [`StreamError`] naming the stream.
    pub fn apply(&mut self, id: StreamId, event: StreamEvent) -> (r: Result<
        StreamState,
        StreamError,
    >)
        ensures
            final(self)@ == old(self)@.applies(id.value(), event).0,
            match r {
                Ok(state) => old(self)@.applies(id.value(), event).1 == Ok::<
                    StreamState,
                    ErrorCode,
                >(state),
                Err(e) => e.stream == id && old(self)@.applies(id.value(), event).1 == Err::<
                    StreamState,
                    ErrorCode,
                >(e.code),
            },
    {
        let next = match self.lookup(id) {
            Lookup::Closed => return Err(StreamError::new(id, ErrorCode::StreamClosed)),
            Lookup::Idle => return Err(StreamError::new(id, ErrorCode::ProtocolError)),
            Lookup::Live(stream) => match stream.state.transition(event) {
                Ok(next) => {
                    stream.state = next;
                    Ok(next)
                },
                Err(code) => Err(StreamError::new(id, code)),
            },
        };
        match next {
            Ok(next) => {
                if next.is_closed() {
                    self.retire(id);
                    assert(self@.live =~= old(self)@.live.remove(id.value()));
                }
                Ok(next)
            },
            Err(e) => {
                assert(self@.live =~= old(self)@.live);
                Err(e)
            },
        }
    }

    /// Drops a finished stream. Idempotent: a stream can be retired by
    /// END_STREAM and then again by a crossing RST_STREAM.
    pub fn retire(&mut self, id: StreamId)
        ensures
            final(self)@ == old(self)@.without(id.value()),
    {
        self.live.remove(&id.0);
        assert(self@.live =~= old(self)@.live.remove(id.value()));
    }

    /// The ids of the live streams, in no particular order.
    fn live_ids(&self) -> (ids: Vec<u32>)
        ensures
            ids@.no_duplicates(),
            forall|id: u32| ids@.contains(id) <==> self.live@.contains_key(id),
    {
        let mut ids: Vec<u32> = Vec::new();
        let ghost all = vstd::std_specs::hash::spec_keys_iter(&self.live).remaining().unref();
        for id in it: self.live.keys()
            invariant
                it.seq().unref() == all,
                ids@ == all.take(it.index()),
        {
            assert(all.take(it.index() + 1) =~= all.take(it.index()).push(*id));
            ids.push(*id);
        }
        assert(all.take(all.len() as int) =~= all);
        assert(all.to_set() == self.live@.dom());
        assert forall|id: u32| ids@.contains(id) <==> self.live@.contains_key(id) by {
            assert(all.contains(id) <==> all.to_set().contains(id));
        }
        ids
    }

    /// Whether every live stream's send window can take `delta`.
    fn delta_fits(&self, delta: i32) -> (b: bool)
        ensures
            b == self@.delta_fits(delta),
    {
        let ids = self.live_ids();
        let mut i: usize = 0;
        while i < ids.len()
            invariant
                i <= ids@.len(),
                forall|id: u32| ids@.contains(id) <==> self.live@.contains_key(id),
                forall|k: int|
                    0 <= k < i ==> self@.live[#[trigger] ids@[k]].send_window.0 + delta
                        <= MAX_WINDOW_SIZE,
            decreases ids@.len() - i,
        {
            let id = ids[i];
            assert(ids@.contains(id));
            if let Some(stream) = self.live.get(&id) {
                if stream.send_window.available() as i64 + delta as i64 > MAX_WINDOW_SIZE as i64 {
                    assert(self@.live.contains_key(id));
                    return false;
                }
            }
            i += 1;
        }
        proof {
            assert forall|id: u32| #[trigger] self@.live.contains_key(id) implies
                self@.live[id].send_window.0 + delta <= MAX_WINDOW_SIZE by {
                assert(ids@.contains(id));
                let k = choose|k: int| 0 <= k < ids@.len() && ids@[k] == id;
                assert(ids@[k] == id);
            }
        }
        true
    }

    /// Fans a change in the peer's `INITIAL_WINDOW_SIZE` across every live
    /// stream's send window (§6.9.2), and moves the window new streams start
    /// from. `FLOW_CONTROL_ERROR`, with no live window moved, when one would
    /// pass the ceiling.
    pub fn apply_initial_window_delta(&mut self, delta: i32) -> (r: Result<(), ErrorCode>)
        ensures
            final(self)@ == old(self)@.window_moved(delta).0,
            r == old(self)@.window_moved(delta).1,
    {
        let sum: i64 = self.initial_send_window as i64 + delta as i64;
        self.initial_send_window = if sum > i32::MAX as i64 {
            i32::MAX
        } else if sum < i32::MIN as i64 {
            i32::MIN
        } else {
            sum as i32
        };
        if !self.delta_fits(delta) {
            return Err(ErrorCode::FlowControlError);
        }
        let ids = self.live_ids();
        let ghost before = self@;
        let mut i: usize = 0;
        while i < ids.len()
            invariant
                i <= ids@.len(),
                ids@.no_duplicates(),
                before.delta_fits(delta),
                forall|id: u32| ids@.contains(id) <==> before.live.contains_key(id),
                self@.live.dom() == before.live.dom(),
                self@ == (TableModel { live: self@.live, ..before }),
                forall|k: int|
                    0 <= k < i ==> self@.live[#[trigger] ids@[k]] == TableModel::moved(
                        before.live[ids@[k]],
                        delta,
                    ),
                forall|k: int|
                    i <= k < ids@.len() ==> self@.live[#[trigger] ids@[k]] == before.live[ids@[k]],
            decreases ids@.len() - i,
        {
            let id = ids[i];
            assert(ids@.contains(id));
            assert(before.live.contains_key(id));
            if let Some(stream) = self.get_mut(StreamId(id)) {
                let _ = stream.send_window.apply_delta(delta);
            }
            i += 1;
        }
        proof {
            assert forall|id: u32| #[trigger] before.live.contains_key(id) implies self@.live[id]
                == TableModel::moved(before.live[id], delta) by {
                assert(ids@.contains(id));
                let k = choose|k: int| 0 <= k < ids@.len() && ids@[k] == id;
                assert(ids@[k] == id);
            }
            assert(self@.live =~= old(self)@.all_moved(delta).live);
        }
        Ok(())
    }
}

// ---------------------------------------------------------------------------
// Laws
// ---------------------------------------------------------------------------

/// A reset closes a stream from every live state, and again from closed.
pub proof fn reset_is_final_and_idempotent(s: StreamState, event: StreamEvent)
    requires
        !(s is Idle),
        event.is_reset(),
    ensures
        s.after(event) == Ok::<StreamState, ErrorCode>(StreamState::Closed),
        StreamState::Closed.after(event) == Ok::<StreamState, ErrorCode>(StreamState::Closed),
{
}

/// A closed stream rejects everything but a reset.
pub proof fn closed_rejects_everything_but_a_reset(event: StreamEvent)
    requires
        !event.is_reset(),
    ensures
        StreamState::Closed.after(event) == Err::<StreamState, ErrorCode>(ErrorCode::StreamClosed),
{
}

/// A direction that has ended never opens again, and no stream becomes idle
/// again.
pub proof fn ended_directions_stay_ended(s: StreamState, event: StreamEvent)
    requires
        !(s is Idle),
        s.after(event) is Ok,
    ensures
        !(s.after(event)->Ok_0 is Idle),
        s.after(event)->Ok_0.local_open() ==> s.local_open(),
        s.after(event)->Ok_0.remote_open() ==> s.remote_open(),
{
}

/// An id the peer opened or was refused can never be opened again: ids are
/// strictly increasing and never reused.
pub proof fn ids_are_never_reused(t: TableModel, id: u32, later: u32)
    requires
        t.peer_opens(id).0.highest_peer == id,
        later <= id,
    ensures
        t.peer_opens(id).0.peer_opens(later).1 is Some,
        t.peer_opens(id).0.peer_opens(later).1 != Some(Rejection::Refused),
        t.peer_opens(id).0.peer_opens(later).0 == t.peer_opens(id).0,
{
}

/// Opening a stream never takes the live count past the concurrency limit, and
/// keeps the table well formed.
pub proof fn opening_respects_the_limit(t: TableModel, id: u32)
    requires
        t.wf(),
        t.live.len() <= t.max_concurrent,
    ensures
        t.peer_opens(id).0.live.len() <= t.max_concurrent,
        t.peer_opens(id).0.wf(),
        t.peer_opens(id).0.highest_peer >= t.highest_peer,
{
}

/// A closed stream leaves no entry behind, and no event brings one into being.
pub proof fn events_keep_the_table_well_formed(t: TableModel, id: u32, event: StreamEvent)
    requires
        t.wf(),
    ensures
        t.applies(id, event).0.wf(),
        t.applies(id, event).1 == Ok::<StreamState, ErrorCode>(StreamState::Closed)
            ==> !t.applies(id, event).0.live.contains_key(id),
        t.applies(id, event).0.live.dom().subset_of(t.live.dom()),
        t.applies(id, event).0.live.len() <= t.live.len(),
{
    if t.live.contains_key(id) {
        if let Ok(next) = t.live[id].state.after(event) {
            assert(t.live.insert(id, StreamModel { state: next, ..t.live[id] }).dom()
                =~= t.live.dom());
        }
    }
}

/// A stream that ended is told apart from one never opened: its id is seen and
/// has no entry, so a later frame for it is `STREAM_CLOSED`, not a protocol
/// error.
pub proof fn a_finished_stream_is_not_an_idle_one(t: TableModel, id: u32, last: StreamEvent, next: StreamEvent)
    requires
        t.wf(),
        t.applies(id, last).1 == Ok::<StreamState, ErrorCode>(StreamState::Closed),
    ensures
        t.applies(id, last).0.applies(id, next).1 == Err::<StreamState, ErrorCode>(
            ErrorCode::StreamClosed,
        ),
{
}

/// Each side of a stream is its own: what one side sends ends that side where it
/// says so and leaves the other alone, and is an error where that side has ended
/// already; a stream opens with both sides, and is closed when neither is left.
pub proof fn each_side_of_a_stream_is_its_own(s: StreamState, event: StreamEvent)
    requires
        event is SendHeaders || event is SendData || event is RecvHeaders || event is RecvData,
    ensures
        ({
            let r = s.after(event);
            let sends = event is SendHeaders || event is SendData;
            let data = event is SendData || event is RecvData;
            let ends = match event {
                StreamEvent::SendHeaders { end_stream } => end_stream,
                StreamEvent::SendData { end_stream } => end_stream,
                StreamEvent::RecvHeaders { end_stream } => end_stream,
                StreamEvent::RecvData { end_stream } => end_stream,
                _ => false,
            };
            let local = s is Idle || s is Open || s is HalfClosedRemote;
            let remote = s is Idle || s is Open || s is HalfClosedLocal;
            &&& s is Idle && data ==> r == Err::<StreamState, ErrorCode>(ErrorCode::ProtocolError)
            &&& !(s is Idle) && sends && !local ==> r == Err::<StreamState, ErrorCode>(
                ErrorCode::StreamClosed,
            )
            &&& !(s is Idle) && !sends && !remote ==> r == Err::<StreamState, ErrorCode>(
                ErrorCode::StreamClosed,
            )
            &&& !(s is Idle && data) && (if sends {
                local
            } else {
                remote
            }) ==> {
                let left = if sends {
                    local && !ends
                } else {
                    local
                };
                let right = if sends {
                    remote
                } else {
                    remote && !ends
                };
                r == Ok::<StreamState, ErrorCode>(
                    if left && right {
                        StreamState::Open
                    } else if left {
                        StreamState::HalfClosedRemote
                    } else if right {
                        StreamState::HalfClosedLocal
                    } else {
                        StreamState::Closed
                    },
                )
            }
        }),
{
}

/// A stream opens where its id is odd and above every one before it and there is
/// room, and otherwise not; it starts with the windows that streams start with,
/// and no other stream is touched.
pub proof fn a_stream_opens_with_the_initial_windows(t: TableModel, id: u32, other: u32)
    ensures
        t.peer_opens(id).1 is None <==> id % 2 == 1 && id > t.highest_peer && t.live.len()
            < t.max_concurrent,
        t.locally_opens(id).1 is None <==> id % 2 == 1 && id > t.highest_local && t.live.len()
            < t.max_concurrent,
        t.peer_opens(id).1 is None ==> {
            let n = t.peer_opens(id).0;
            &&& n.live.contains_key(id) && n.live[id].state is Idle
            &&& n.live[id].send_window.0 == t.initial_send_window
            &&& n.live[id].recv_window.window.0 == t.initial_recv_window
            &&& n.live[id].send_queue.len() == 0 && !n.live[id].send_end_stream
            &&& n.highest_peer == id
            &&& other != id ==> n.live.contains_key(other) == t.live.contains_key(other)
                && n.live[other] == t.live[other]
        },
        t.locally_opens(id).1 is None ==> {
            let n = t.locally_opens(id).0;
            &&& n.live.contains_key(id) && n.live[id].state is Idle
            &&& n.live[id].send_window.0 == t.initial_send_window
            &&& n.live[id].recv_window.window.0 == t.initial_recv_window
            &&& n.highest_local == id
            &&& other != id ==> n.live.contains_key(other) == t.live.contains_key(other)
                && n.live[other] == t.live[other]
        },
        t.peer_opens(id).1 is Some ==> t.peer_opens(id).0.live == t.live,
        t.locally_opens(id).1 is Some ==> t.locally_opens(id).0 == t,
{
}

/// A new initial window moves every live window by the difference, and those of
/// streams that are yet to open; where one cannot take it, none moves.
pub proof fn a_new_initial_window_moves_every_stream(t: TableModel, delta: i32, id: u32)
    requires
        t.live.contains_key(id),
    ensures
        t.window_moved(delta).1 is Ok && t.live[id].send_window.0 + delta >= i32::MIN
            ==> t.window_moved(delta).0.live[id].send_window.0 == t.live[id].send_window.0 + delta,
        t.live[id].send_window.0 + delta > 0x7fff_ffff ==> t.window_moved(delta).1 == Err::<
            (),
            ErrorCode,
        >(ErrorCode::FlowControlError),
        t.window_moved(delta).1 is Err ==> t.window_moved(delta).0.live == t.live,
        i32::MIN <= t.initial_send_window + delta <= i32::MAX
            ==> t.window_moved(delta).0.initial_send_window == t.initial_send_window + delta,
{
}

} // verus!
