//! How much of a response can be between the two legs.
//!
//! Octets a backend sent and their client has not confirmed yet are held
//! against the connection window, whether their response is still running or has
//! ended, and the window is only given back as they are confirmed or given up. So
//! whatever the response sizes, and however slow the clients, what is held never
//! exceeds the one window the connection was opened with; and a backend that would
//! send past it breaks the protocol.

use crate::conn::{ErrorCode, Tuning};
use crate::flow::{RecvWindow, Window};
use crate::frame::{taken, DecodedModel, FrameModel};
use crate::hpack::HeaderModel;
use crate::service::{EventModel, RequestModel};
use crate::stream::{low31, StreamEvent};
use crate::upstream::laws::lemma_handles_untouched;
use crate::upstream::model::{
    ended_at, ended_for, lemma_laps_progress, lemma_queues, lemma_settles_all_at,
    lemma_starts_oldest_pending, route_at, route_of, up_lap, EffectModel, Ended, MessageModel,
    Route, UpModel, MAX_WRITE_QUEUE,
};
use crate::upstream::WakeModel;
use vstd::prelude::*;

verus! {

/// Response octets handed on and not confirmed yet, over all routes.
pub open spec fn owed(routes: Seq<Route>) -> nat
    decreases routes.len(),
{
    if routes.len() == 0 {
        0
    } else {
        owed(routes.drop_last()) + routes.last().pending_conn_release as nat
    }
}

/// Octets of ended responses that are not confirmed yet.
pub open spec fn outstanding(ended: Seq<Ended>) -> nat
    decreases ended.len(),
{
    if ended.len() == 0 {
        0
    } else {
        outstanding(ended.drop_last()) + ended.last().pending_conn_release as nat
    }
}

impl UpModel {
    /// What is held for clients: what they have not confirmed, of responses that
    /// run and of those that ended.
    pub open spec fn held(self) -> nat {
        owed(self.routes) + outstanding(self.ended)
    }

    /// The books of the bridge balance: what the backend may still send, what
    /// was confirmed and not announced yet, and what clients still owe together
    /// stay within the window the connection was opened with.
    pub open spec fn within_window(self) -> bool {
        &&& self.recv_window.initial == self.conn_window
        &&& 0 <= self.recv_window.window.0
        &&& self.recv_window.window.0 + self.recv_window.unreleased + self.held()
            <= self.conn_window
    }

    /// The message reports no octets but those its client was handed and has
    /// not confirmed yet. Of a response that ended, no more are taken off the
    /// books than are on them whatever it reports.
    pub open spec fn reports_honestly(self, msg: MessageModel) -> bool {
        msg matches MessageModel::Released { id, n } ==> self.requests.contains_key(id) ==> {
            let r = route_of(self.routes, self.requests[id]);
            r is Some && n <= r->0.pending_conn_release
        }
    }
}

proof fn lemma_owed_push(routes: Seq<Route>, r: Route)
    ensures
        owed(routes.push(r)) == owed(routes) + r.pending_conn_release,
{
    assert(routes.push(r).drop_last() =~= routes);
}

pub proof fn lemma_owed_update(routes: Seq<Route>, i: int, r: Route)
    requires
        0 <= i < routes.len(),
    ensures
        owed(routes.update(i, r)) == owed(routes) - routes[i].pending_conn_release
            + r.pending_conn_release,
        routes[i].pending_conn_release <= owed(routes),
    decreases routes.len(),
{
    if i < routes.len() - 1 {
        assert(routes.update(i, r).drop_last() =~= routes.drop_last().update(i, r));
        lemma_owed_update(routes.drop_last(), i, r);
    } else {
        assert(routes.update(i, r).drop_last() =~= routes.drop_last());
    }
}

proof fn lemma_owed_remove(routes: Seq<Route>, i: int)
    requires
        0 <= i < routes.len(),
    ensures
        owed(routes.remove(i)) == owed(routes) - routes[i].pending_conn_release,
        routes[i].pending_conn_release <= owed(routes),
    decreases routes.len(),
{
    if i < routes.len() - 1 {
        assert(routes.remove(i).drop_last() =~= routes.drop_last().remove(i));
        lemma_owed_remove(routes.drop_last(), i);
    } else {
        assert(routes.remove(i) =~= routes.drop_last());
    }
}

pub proof fn lemma_outstanding_update(ended: Seq<Ended>, i: int, e: Ended)
    requires
        0 <= i < ended.len(),
    ensures
        outstanding(ended.update(i, e)) == outstanding(ended) - ended[i].pending_conn_release
            + e.pending_conn_release,
    decreases ended.len(),
{
    if i < ended.len() - 1 {
        assert(ended.update(i, e).drop_last() =~= ended.drop_last().update(i, e));
        lemma_outstanding_update(ended.drop_last(), i, e);
    } else {
        assert(ended.update(i, e).drop_last() =~= ended.drop_last());
    }
}

pub proof fn lemma_outstanding_remove(ended: Seq<Ended>, i: int)
    requires
        0 <= i < ended.len(),
    ensures
        outstanding(ended.remove(i)) == outstanding(ended) - ended[i].pending_conn_release,
        ended[i].pending_conn_release <= outstanding(ended),
    decreases ended.len(),
{
    if i < ended.len() - 1 {
        assert(ended.remove(i).drop_last() =~= ended.drop_last().remove(i));
        lemma_outstanding_remove(ended.drop_last(), i);
    } else {
        assert(ended.remove(i) =~= ended.drop_last());
    }
}

/// Two connections with the same books.
pub open spec fn same_books(a: UpModel, b: UpModel) -> bool {
    &&& a.recv_window == b.recv_window
    &&& a.conn_window == b.conn_window
    &&& a.held() == b.held()
}

/// Giving back what is not owed any more.
proof fn lemma_releases_conn_within(m: UpModel, n: u32)
    requires
        m.recv_window.initial == m.conn_window,
        0 <= m.recv_window.window.0,
        m.recv_window.window.0 + m.recv_window.unreleased + m.held() + n <= m.conn_window,
    ensures
        m.releases_conn(n).0.within_window(),
{
    let (recv_window, due) = m.recv_window.released(n);
    if let Some(increment) = due {
        lemma_queues(
            UpModel { recv_window, ..m },
            FrameModel::WindowUpdate { stream_id: 0, increment },
        );
    }
}

proof fn lemma_sends_request_books(
    m: UpModel,
    request: u32,
    client_id: u32,
    client: u64,
    head: RequestModel,
    end_stream: bool,
)
    ensures
        same_books(m, m.sends_request(request, client_id, client, head, end_stream).0),
{
    reveal(UpModel::sends_request);
    reveal(UpModel::starts_request);
    reveal(UpModel::queues);
    let id = low31(m.next_stream_id);
    lemma_owed_push(
        m.routes,
        Route {
            stream: id,
            client_id,
            client,
            request,
            head_sent: false,
            pending_conn_release: 0,
        },
    );
}

proof fn lemma_starts_pending_books(m: UpModel)
    ensures
        same_books(m, m.starts_pending().0),
    decreases m.pending.len(),
{
    if m.streams.live.len() < m.streams.max_concurrent && m.pending.len() > 0 {
        lemma_starts_oldest_pending(m);
        let (n, f) = m.starts_oldest();
        assert(same_books(m, n)) by {
            reveal(UpModel::starts_oldest);
            let p = m.pending[0];
            let waiting = UpModel { pending: m.pending.skip(1), ..m };
            lemma_sends_request_books(
                waiting,
                p.request,
                p.client_id,
                p.client,
                p.head,
                p.end_stream,
            );
        }
        if f is None {
            lemma_starts_pending_books(n);
        }
    }
}

proof fn lemma_forgets_within(m: UpModel, id: u32)
    requires
        m.within_window(),
    ensures
        m.forgets(id).within_window(),
{
    reveal(UpModel::forgets);
    let a = m.without(id);
    let i = route_at(a.routes, id) as int;
    assert(a.drops_route(id).within_window()) by {
        reveal(UpModel::drops_route);
        if i < a.routes.len() {
            lemma_owed_remove(a.routes, i);
            let r = a.routes[i];
            let b = UpModel {
                routes: a.routes.remove(i),
                requests: a.requests.remove(r.request),
                ..a
            }.emits(EffectModel::StreamClosed);
            if r.pending_conn_release > 0 {
                lemma_releases_conn_within(
                    b.emits(
                        EffectModel::Unbuffered(r.pending_conn_release),
                    ),
                    r.pending_conn_release,
                );
            }
        }
    }
    lemma_starts_pending_books(a.drops_route(id));
}

/// The end of a response changes nothing about what is held for its client.
pub proof fn lemma_completes_books(m: UpModel, id: u32)
    ensures
        same_books(m, m.completes(id)),
{
    reveal(UpModel::completes);
    let a = m.without(id);
    let i = route_at(a.routes, id) as int;
    assert(same_books(a, a.completes_route(id))) by {
        reveal(UpModel::completes_route);
        if i < a.routes.len() {
            lemma_owed_remove(a.routes, i);
            let e = Ended {
                request: a.routes[i].request,
                client: a.routes[i].client,
                pending_conn_release: a.routes[i].pending_conn_release,
            };
            assert(a.ended.push(e).drop_last() =~= a.ended);
        }
    }
    lemma_starts_pending_books(a.completes_route(id));
}

/// Settling moves octets from the books to the window.
proof fn lemma_settles_within(m: UpModel, request: u32, n: u32)
    requires
        m.within_window(),
    ensures
        m.settles(request, n).0.within_window(),
{
    reveal(UpModel::settles);
    let i = ended_at(m.ended, request) as int;
    if i < m.ended.len() && n > 0 {
        lemma_settles_at_within(m, i, n);
    }
}

pub proof fn lemma_settles_at_within(m: UpModel, i: int, n: u32)
    requires
        m.within_window(),
        0 <= i < m.ended.len(),
    ensures
        m.settles_at(i, n).0.within_window(),
{
    reveal(UpModel::settles_at);
    let held = m.ended[i].pending_conn_release;
    lemma_outstanding_remove(m.ended, i);
    if n >= held {
        lemma_releases_conn_within(
            UpModel { ended: m.ended.remove(i), ..m }.emits(EffectModel::Unbuffered(held)),
            held,
        );
    } else {
        let e = Ended { pending_conn_release: (held - n) as u32, ..m.ended[i] };
        lemma_outstanding_update(m.ended, i, e);
        lemma_releases_conn_within(
            UpModel { ended: m.ended.update(i, e), ..m }.emits(EffectModel::Unbuffered(n)),
            n,
        );
    }
}

proof fn lemma_departs_within(m: UpModel, client: u64)
    requires
        m.within_window(),
    ensures
        m.departs(client).0.within_window(),
    decreases m.ended.len(),
{
    let i = ended_for(m.ended, client) as int;
    if i < m.ended.len() {
        lemma_settles_all_at(m, i);
        lemma_settles_at_within(m, i, u32::MAX);
        let (n, f) = m.settles_at(i, u32::MAX);
        if f is None {
            lemma_departs_within(n, client);
        }
    }
}

proof fn lemma_fails_stream_within(m: UpModel, id: u32)
    requires
        m.within_window(),
    ensures
        m.fails_stream(id).0.within_window(),
{
    reveal(UpModel::fails_stream);
    reveal(UpModel::queues);
    assert forall|n: UpModel| n.within_window() implies (#[trigger] n.forgets(
        id,
    )).within_window() by {
        lemma_forgets_within(n, id);
    }
}

proof fn lemma_breaks_within(m: UpModel, id: u32, code: ErrorCode)
    requires
        m.within_window(),
    ensures
        m.breaks(id, code).0.within_window(),
{
    reveal(UpModel::breaks);
    reveal(UpModel::queues);
    lemma_fails_stream_within(m.resets(id, code).0, id);
}

proof fn lemma_advances_within(m: UpModel, id: u32, event: StreamEvent)
    requires
        m.within_window(),
    ensures
        m.advances(id, event).0.within_window(),
{
    reveal(UpModel::advances);
    lemma_fails_stream_within(
        UpModel { streams: m.streams.applies(id, event).0, ..m },
        id,
    );
}

proof fn lemma_advances_to_end_within(m: UpModel, id: u32, event: StreamEvent, end: bool)
    requires
        m.within_window(),
    ensures
        m.advances_to_end(id, event, end).0.within_window(),
{
    reveal(UpModel::advances_to_end);
    lemma_advances_within(m, id, event);
    lemma_completes_books(m.advances(id, event).0, id);
}

proof fn lemma_takes_response_within(
    m: UpModel,
    id: u32,
    fields: Seq<HeaderModel>,
    end_stream: bool,
)
    requires
        m.within_window(),
    ensures
        m.takes_response(id, fields, end_stream).0.within_window(),
{
    reveal(UpModel::takes_response);
    let event = StreamEvent::RecvHeaders { end_stream };
    assert forall|n: UpModel| n.within_window() implies (#[trigger] n.advances_to_end(
        id,
        event,
        end_stream,
    )).0.within_window() by {
        lemma_advances_to_end_within(n, id, event, end_stream);
    }
    lemma_fails_stream_within(m, id);
    lemma_advances_within(m, id, StreamEvent::RecvHeaders { end_stream: false });
    let i = route_at(m.routes, id) as int;
    if i < m.routes.len() {
        lemma_owed_update(m.routes, i, Route { head_sent: true, ..m.routes[i] });
    }
}

proof fn lemma_takes_fragment_within(m: UpModel, id: u32, fragment: Seq<u8>, end_headers: bool)
    requires
        m.within_window(),
    ensures
        m.takes_fragment(id, fragment, end_headers).0.within_window(),
{
    reveal(UpModel::takes_fragment);
    let (dec, r) = m.dec.decoded(m.header_block + fragment);
    let n = UpModel { dec, header_block: Seq::empty(), ..m };
    if let Ok(fields) = r {
        lemma_takes_response_within(n, id, fields, n.open_end);
    }
    lemma_fails_stream_within(n, id);
}

/// Octets within both windows move from the window to what is owed.
proof fn lemma_forwards_data_within(m: UpModel, id: u32, data: Seq<u8>, end_stream: bool)
    requires
        m.recv_window.initial == m.conn_window,
        0 <= m.recv_window.window.0,
        m.recv_window.window.0 + m.recv_window.unreleased + m.held() + data.len() as u32
            <= m.conn_window,
    ensures
        m.forwards_data(id, data, end_stream).0.within_window(),
{
    reveal(UpModel::forwards_data);
    let len = data.len() as u32;
    let event = StreamEvent::RecvData { end_stream };
    assert forall|n: UpModel| n.within_window() implies (#[trigger] n.advances_to_end(
        id,
        event,
        end_stream,
    )).0.within_window() by {
        lemma_advances_to_end_within(n, id, event, end_stream);
    }
    let i = route_at(m.routes, id) as int;
    if i < m.routes.len() {
        let r = m.routes[i];
        lemma_owed_update(
            m.routes,
            i,
            Route {
                pending_conn_release: if r.pending_conn_release + len > u32::MAX {
                    u32::MAX
                } else {
                    (r.pending_conn_release + len) as u32
                },
                ..r
            },
        );
    }
}

proof fn lemma_takes_data_within(m: UpModel, id: u32, data: Seq<u8>, end_stream: bool)
    requires
        m.within_window(),
    ensures
        m.takes_data(id, data, end_stream).0.within_window(),
{
    reveal(UpModel::takes_data);
    let len = data.len() as u32;
    if len <= m.recv_window.window.0 {
        let n = UpModel {
            recv_window: RecvWindow {
                window: Window((m.recv_window.window.0 - len) as i32),
                ..m.recv_window
            },
            ..m
        };
        lemma_releases_conn_within(n, len);
        lemma_forwards_data_within(n, id, data, end_stream);
        lemma_breaks_within(n, id, ErrorCode::FlowControlError);
    }
}

proof fn lemma_abandons_within(m: UpModel, ids: Seq<u32>)
    requires
        m.within_window(),
    ensures
        m.abandons(ids).within_window(),
    decreases ids.len(),
{
    if ids.len() > 0 {
        let a = m.abandons(ids.drop_last());
        lemma_abandons_within(m, ids.drop_last());
        let b = match route_of(a.routes, ids.last()) {
            Some(r) => a.tells(
                r.client,
                EventModel::Reset { id: r.client_id, code: ErrorCode::RefusedStream },
            ),
            None => a,
        };
        lemma_forgets_within(b, ids.last());
    }
}

/// Nothing a backend sends makes the bridge hold more than one window.
pub proof fn no_frame_overfills_the_bridge(m: UpModel, f: FrameModel, now: u64)
    requires
        m.within_window(),
    ensures
        m.handles(f, now).0.within_window(),
{
    match f {
        FrameModel::Settings { params, .. } => {
            reveal(UpModel::takes_settings);
            reveal(UpModel::queues);
        },
        FrameModel::Ping { .. } => {
            reveal(UpModel::queues);
        },
        FrameModel::GoAway { last_stream_id, .. } => {
            reveal(UpModel::starts_drain);
            assert forall|n: UpModel, ids: Seq<u32>| n.within_window() implies (
            #[trigger] n.abandons(ids)).within_window() by {
                lemma_abandons_within(n, ids);
            }
        },
        FrameModel::WindowUpdate { stream_id, .. } => {
            reveal(UpModel::takes_credit);
            lemma_breaks_within(m, stream_id, ErrorCode::ProtocolError);
            lemma_breaks_within(m, stream_id, ErrorCode::FlowControlError);
        },
        FrameModel::Headers { stream_id, block, end_stream, end_headers } => {
            let n = UpModel {
                open_end: if m.open_block is None {
                    end_stream
                } else {
                    m.open_end
                },
                ..m
            };
            lemma_takes_fragment_within(n, stream_id, block, end_headers);
        },
        FrameModel::Continuation { stream_id, block, end_headers } => {
            lemma_takes_fragment_within(m, stream_id, block, end_headers);
        },
        FrameModel::Data { stream_id, data, end_stream } => {
            lemma_takes_data_within(m, stream_id, data, end_stream);
        },
        FrameModel::RstStream { stream_id, .. } => {
            reveal(UpModel::takes_reset);
            assert forall|n: UpModel| n.within_window() implies (#[trigger] n.forgets(
                stream_id,
            )).within_window() by {
                lemma_forgets_within(n, stream_id);
            }
        },
    }
}

/// Nothing a client asks makes the bridge hold more than one window, as long as
/// it confirms only octets it was handed.
pub proof fn no_message_overfills_the_bridge(m: UpModel, msg: MessageModel)
    requires
        m.within_window(),
        m.reports_honestly(msg),
    ensures
        m.hears(msg).0.within_window(),
{
    match msg {
        MessageModel::Request { id, client_id, client, head, end_stream } => {
            lemma_sends_request_books(m, id, client_id, client, head, end_stream);
        },
        MessageModel::Body { .. } => {
            reveal(UpModel::takes_body);
        },
        MessageModel::Trailers { .. } => {
            reveal(UpModel::takes_request_trailers);
        },
        MessageModel::Released { id, n } => {
            reveal(UpModel::releases);
            lemma_settles_within(m, id, n);
            if m.requests.contains_key(id) && n > 0 {
                reveal(UpModel::queues);
                let stream = m.requests[id];
                let i = route_at(m.routes, stream) as int;
                let r = m.routes[i];
                let r2 = Route {
                    pending_conn_release: (r.pending_conn_release - n) as u32,
                    ..r
                };
                lemma_owed_update(m.routes, i, r2);
                let a = UpModel { routes: m.routes.update(i, r2), ..m }.emits(
                    EffectModel::Unbuffered(n),
                );
                let b = a.releases_stream(stream, n).0;
                assert(same_books(a, b));
                lemma_releases_conn_within(b, n);
            }
        },
        MessageModel::Cancel { id, .. } => {
            reveal(UpModel::cancels);
            reveal(UpModel::queues);
            lemma_settles_within(m, id, u32::MAX);
            assert forall|n: UpModel, stream: u32| n.within_window() implies (
            #[trigger] n.forgets(stream)).within_window() by {
                lemma_forgets_within(n, stream);
            }
        },
        MessageModel::Left { client } => {
            lemma_departs_within(m, client);
        },
    }
}

proof fn lemma_sends_chunk_within(
    m: UpModel,
    id: u32,
    chunk: Seq<u8>,
    end_stream: bool,
    trailers: Option<Seq<HeaderModel>>,
)
    requires
        m.within_window(),
    ensures
        m.sends_chunk(id, chunk, end_stream, trailers).0.within_window(),
{
    reveal(UpModel::sends_chunk);
    reveal(UpModel::queues);
    assert forall|n: UpModel, event: StreamEvent| n.within_window() implies (
    #[trigger] n.advances(id, event)).0.within_window() by {
        lemma_advances_within(n, id, event);
    }
}

proof fn lemma_lap_within(m: UpModel, ids: Seq<u32>)
    requires
        m.within_window(),
    ensures
        up_lap(m, ids).conn.within_window(),
    decreases ids.len(),
{
    if ids.len() > 0 {
        let l = up_lap(m, ids.drop_last());
        lemma_lap_within(m, ids.drop_last());
        let id = ids.last();
        assert(l.conn.visits(id).0.within_window()) by {
            reveal(UpModel::visits);
            assert forall|
                n: UpModel,
                chunk: Seq<u8>,
                end_stream: bool,
                trailers: Option<Seq<HeaderModel>>,
            | n.within_window() implies (#[trigger] n.sends_chunk(
                id,
                chunk,
                end_stream,
                trailers,
            )).0.within_window() by {
                lemma_sends_chunk_within(n, id, chunk, end_stream, trailers);
            }
        }
    }
}

proof fn lemma_pumps_within(m: UpModel)
    requires
        m.within_window(),
        m.streams.live.dom().finite(),
    ensures
        m.pumps().0.within_window(),
    decreases m.pending.len(), m.work_left(), m.ready.len(),
{
    lemma_laps_progress(m);
    let start = UpModel { ready: Seq::empty(), ..m };
    lemma_lap_within(start, m.ready);
    let l = m.laps();
    if m.ready.len() > 0 && m.output.len() < MAX_WRITE_QUEUE
        && l.fault is None && l.wrote {
        lemma_pumps_within(l.conn);
    }
}

proof fn lemma_drains_within(m: UpModel, now: u64)
    requires
        m.within_window(),
    ensures
        m.drains(now).0.within_window(),
        m.streams.live.dom().finite() ==> m.drains(now).0.streams.live.dom().finite(),
    decreases m.input.len(),
{
    let (r, rest) = taken(m.max_frame_size, m.input);
    let n = UpModel { input: rest, ..m };
    if let Ok(Some(d)) = r {
        if let DecodedModel::Frame(f) = d {
            no_frame_overfills_the_bridge(n, f, now);
            lemma_handles_untouched(n, f, now);
        }
        let (n2, f) = n.takes(d, now);
        if f is None && n2.input.len() < m.input.len() {
            lemma_drains_within(n2, now);
        }
    }
}

/// A connection starts with its books balanced and nothing held.
pub proof fn the_bridge_opens_empty(t: Tuning)
    requires
        t.connection_window >= 0,
    ensures
        UpModel::initial(t).within_window(),
        UpModel::initial(t).held() == 0,
{
}

/// Whatever woke the loop, the bridge holds no more than one window afterwards.
pub proof fn no_wakeup_overfills_the_bridge(m: UpModel, w: WakeModel, now: u64)
    requires
        m.within_window(),
        w matches WakeModel::Message(msg) ==> m.reports_honestly(msg),
    ensures
        m.wakes(w, now).0.within_window(),
{
    match w {
        WakeModel::Message(msg) => {
            no_message_overfills_the_bridge(m, msg);
        },
        WakeModel::ProbeTimer => {
            reveal(UpModel::probes);
            reveal(UpModel::queues);
        },
        _ => {},
    }
}

/// Nor does a turn of the loop make it hold more, whatever arrived.
pub proof fn no_turn_overfills_the_bridge(m: UpModel, now: u64)
    requires
        m.within_window(),
        m.streams.live.dom().finite(),
    ensures
        m.turns(now).0.within_window(),
{
    lemma_drains_within(m, now);
    lemma_pumps_within(m.drains(now).0);
}

/// With the books balanced, what is held for clients is at most the one window,
/// however large the responses are and however many have ended; and a backend
/// that sends more than the rest of it has broken the protocol.
pub proof fn held_octets_stay_within_one_window(
    m: UpModel,
    id: u32,
    data: Seq<u8>,
    end_stream: bool,
)
    requires
        m.within_window(),
        data.len() <= u32::MAX,
    ensures
        m.held() <= m.conn_window,
        m.held() + data.len() > m.conn_window ==> {
            &&& m.takes_data(id, data, end_stream).0 == m
            &&& m.takes_data(id, data, end_stream).1 is Some
            &&& m.takes_data(id, data, end_stream).1->0.code == ErrorCode::FlowControlError
        },
{
    reveal(UpModel::takes_data);
}

} // verus!
