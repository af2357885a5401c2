//! What holds of every upstream connection, whatever its backend sends.

use crate::conn::engine::{counted, PREFACE};
use crate::conn::laws::extends;
use crate::conn::{ErrorCode, Fault, Tuning};
use crate::flow::{RecvWindow, Window, SEND_BUDGET};
use crate::frame::FrameModel;
use crate::hpack::HeaderModel;
use crate::sched::{taken_front, visit_budget};
use crate::service::{are_trailers, is_response, response_of, EventModel, RequestModel};
use crate::stream::{StreamEvent, StreamModel, TableModel};
use crate::upstream::bridge::{
    lemma_completes_books, lemma_outstanding_remove, lemma_outstanding_update, lemma_owed_update,
    lemma_settles_at_within,
};
use crate::upstream::model::{
    above, bare, ended_at, ended_for, lemma_drops_route, lemma_settles_all_at,
    lemma_starts_oldest_pending, lemma_starts_pending, pending_told, route_at, route_lost, route_of,
    routes_lost, waiting_without, EffectModel, Ended, MessageModel, PendingModel, Route, UpModel,
    UpstreamSummary, PEER_DRAIN_DEADLINE,
};
use crate::upstream::probe::later;
use vstd::prelude::*;
use vstd::utf8::encode_utf8;

verus! {

/// Every live stream was opened from this side, under an id as the wire names
/// streams: by 31 bits.
pub open spec fn known(t: TableModel) -> bool {
    forall|id: u32| #[trigger] t.live.contains_key(id) ==> id < 0x8000_0000 && id <= t.highest_local
}

/// What no step changes: the input, and what was fixed when the connection was
/// made; and there are still finitely many streams, every one of them known.
pub open spec fn untouched(a: UpModel, b: UpModel) -> bool {
    &&& b.input == a.input
    &&& b.max_frame_size == a.max_frame_size
    &&& b.local == a.local
    &&& b.conn_window == a.conn_window
    &&& a.streams.live.dom().finite() ==> b.streams.live.dom().finite()
    &&& known(a.streams) ==> known(b.streams)
}

pub proof fn lemma_sends_request_untouched(
    m: UpModel,
    request: u32,
    client_id: u32,
    client: u64,
    head: RequestModel,
    end_stream: bool,
)
    ensures
        untouched(m, m.sends_request(request, client_id, client, head, end_stream).0),
{
    reveal(UpModel::sends_request);
    reveal(UpModel::starts_request);
    reveal(UpModel::queues);
}

proof fn lemma_starts_oldest_untouched(m: UpModel)
    ensures
        untouched(m, m.starts_oldest().0),
{
    reveal(UpModel::starts_oldest);
    let p = m.pending[0];
    let n = UpModel { pending: m.pending.skip(1), ..m };
    lemma_sends_request_untouched(n, p.request, p.client_id, p.client, p.head, p.end_stream);
}

proof fn lemma_starts_pending_untouched(m: UpModel)
    ensures
        untouched(m, m.starts_pending().0),
    decreases m.pending.len(),
{
    if m.streams.live.len() < m.streams.max_concurrent && m.pending.len() > 0 {
        lemma_starts_oldest_pending(m);
        lemma_starts_oldest_untouched(m);
        let (n, f) = m.starts_oldest();
        if f is None {
            lemma_starts_pending_untouched(n);
        }
    }
}

proof fn lemma_forgets_untouched(m: UpModel, id: u32)
    ensures
        untouched(m, m.forgets(id)),
{
    reveal(UpModel::forgets);
    let a = m.without(id);
    assert(untouched(a, a.drops_route(id))) by {
        reveal(UpModel::drops_route);
        reveal(UpModel::queues);
    }
    lemma_starts_pending_untouched(a.drops_route(id));
}

proof fn lemma_fails_stream_untouched(m: UpModel, id: u32)
    ensures
        untouched(m, m.fails_stream(id).0),
{
    reveal(UpModel::fails_stream);
    reveal(UpModel::queues);
    assert forall|n: UpModel| untouched(m, n) implies untouched(m, #[trigger] n.forgets(id)) by {
        lemma_forgets_untouched(n, id);
    }
}

proof fn lemma_breaks_untouched(m: UpModel, id: u32, code: ErrorCode)
    ensures
        untouched(m, m.breaks(id, code).0),
{
    reveal(UpModel::breaks);
    reveal(UpModel::queues);
    lemma_fails_stream_untouched(m.resets(id, code).0, id);
}

proof fn lemma_advances_untouched(m: UpModel, id: u32, event: StreamEvent)
    ensures
        untouched(m, m.advances(id, event).0),
{
    reveal(UpModel::advances);
    lemma_fails_stream_untouched(
        UpModel { streams: m.streams.applies(id, event).0, ..m },
        id,
    );
}

proof fn lemma_advances_to_end_untouched(m: UpModel, id: u32, event: StreamEvent, end: bool)
    ensures
        untouched(m, m.advances_to_end(id, event, end).0),
{
    reveal(UpModel::advances_to_end);
    lemma_advances_untouched(m, id, event);
    let a = m.advances(id, event).0;
    reveal(UpModel::completes);
    let b = a.without(id);
    assert(untouched(b, b.completes_route(id))) by {
        reveal(UpModel::completes_route);
    }
    lemma_starts_pending_untouched(b.completes_route(id));
}

proof fn lemma_takes_response_untouched(
    m: UpModel,
    id: u32,
    fields: Seq<HeaderModel>,
    end_stream: bool,
)
    ensures
        untouched(m, m.takes_response(id, fields, end_stream).0),
{
    reveal(UpModel::takes_response);
    let event = StreamEvent::RecvHeaders { end_stream };
    assert forall|n: UpModel| untouched(m, n) implies untouched(
        m,
        (#[trigger] n.advances_to_end(id, event, end_stream)).0,
    ) by {
        lemma_advances_to_end_untouched(n, id, event, end_stream);
    }
    lemma_fails_stream_untouched(m, id);
    lemma_advances_untouched(m, id, StreamEvent::RecvHeaders { end_stream: false });
}

proof fn lemma_takes_fragment_untouched(m: UpModel, id: u32, fragment: Seq<u8>, end_headers: bool)
    ensures
        untouched(m, m.takes_fragment(id, fragment, end_headers).0),
{
    reveal(UpModel::takes_fragment);
    let (dec, r) = m.dec.decoded(m.header_block + fragment);
    let n = UpModel { dec, header_block: Seq::empty(), ..m };
    if let Ok(fields) = r {
        lemma_takes_response_untouched(n, id, fields, n.open_end);
    }
    lemma_fails_stream_untouched(n, id);
}

proof fn lemma_takes_data_untouched(m: UpModel, id: u32, data: Seq<u8>, end_stream: bool)
    ensures
        untouched(m, m.takes_data(id, data, end_stream).0),
{
    reveal(UpModel::takes_data);
    reveal(UpModel::forwards_data);
    reveal(UpModel::queues);
    let event = StreamEvent::RecvData { end_stream };
    assert forall|n: UpModel| untouched(m, n) implies untouched(
        m,
        (#[trigger] n.advances_to_end(id, event, end_stream)).0,
    ) by {
        lemma_advances_to_end_untouched(n, id, event, end_stream);
    }
    assert forall|n: UpModel| untouched(m, n) implies untouched(
        m,
        (#[trigger] n.breaks(id, ErrorCode::FlowControlError)).0,
    ) by {
        lemma_breaks_untouched(n, id, ErrorCode::FlowControlError);
    }
}

proof fn lemma_abandons_untouched(m: UpModel, ids: Seq<u32>)
    ensures
        untouched(m, m.abandons(ids)),
    decreases ids.len(),
{
    if ids.len() > 0 {
        let a = m.abandons(ids.drop_last());
        lemma_abandons_untouched(m, ids.drop_last());
        let b = match route_of(a.routes, ids.last()) {
            Some(r) => a.tells(
                r.client,
                EventModel::Reset { id: r.client_id, code: ErrorCode::RefusedStream },
            ),
            None => a,
        };
        lemma_forgets_untouched(b, ids.last());
    }
}

proof fn lemma_starts_drain_untouched(m: UpModel, last: u32, now: u64)
    ensures
        untouched(m, m.starts_drain(last, now)),
{
    reveal(UpModel::starts_drain);
    assert forall|n: UpModel, ids: Seq<u32>| untouched(m, n) implies untouched(
        m,
        #[trigger] n.abandons(ids),
    ) by {
        lemma_abandons_untouched(n, ids);
    }
}

/// Acting on a frame leaves the input alone.
pub proof fn lemma_handles_untouched(m: UpModel, f: FrameModel, now: u64)
    ensures
        untouched(m, m.handles(f, now).0),
{
    match f {
        FrameModel::Settings { params, .. } => {
            reveal(UpModel::takes_settings);
            reveal(UpModel::queues);
            assert forall|t: TableModel, delta: i32| (#[trigger] t.window_moved(
                delta,
            )).0.live.dom() == t.live.dom() by {
                assert(t.window_moved(delta).0.live.dom() =~= t.live.dom());
            }
        },
        FrameModel::Ping { .. } => {
            reveal(UpModel::queues);
        },
        FrameModel::GoAway { last_stream_id, .. } => {
            lemma_starts_drain_untouched(m, last_stream_id, now);
        },
        FrameModel::WindowUpdate { stream_id, .. } => {
            reveal(UpModel::takes_credit);
            lemma_breaks_untouched(m, stream_id, ErrorCode::ProtocolError);
            lemma_breaks_untouched(m, stream_id, ErrorCode::FlowControlError);
        },
        FrameModel::Headers { stream_id, block, end_stream, end_headers } => {
            let n = UpModel {
                open_end: if m.open_block is None {
                    end_stream
                } else {
                    m.open_end
                },
                ..m
            };
            lemma_takes_fragment_untouched(n, stream_id, block, end_headers);
        },
        FrameModel::Continuation { stream_id, block, end_headers } => {
            lemma_takes_fragment_untouched(m, stream_id, block, end_headers);
        },
        FrameModel::Data { stream_id, data, end_stream } => {
            lemma_takes_data_untouched(m, stream_id, data, end_stream);
        },
        FrameModel::RstStream { stream_id, .. } => {
            reveal(UpModel::takes_reset);
            assert forall|n: UpModel| untouched(m, n) implies untouched(
                m,
                #[trigger] n.forgets(stream_id),
            ) by {
                lemma_forgets_untouched(n, stream_id);
            }
        },
    }
}

// ---------------------------------------------------------------------------
// Laws
// ---------------------------------------------------------------------------

/// Response octets are recorded, forwarded, and not released: the backend gets
/// no credit for them, at either level, until the client has them, and until
/// then they are on the books. That they end the response changes nothing about
/// it.
pub proof fn response_octets_are_held_for_the_client(
    m: UpModel,
    id: u32,
    data: Seq<u8>,
    end_stream: bool,
)
    requires
        m.within_window(),
        m.streams.live.contains_key(id),
        m.streams.live[id].state.remote_open(),
        route_of(m.routes, id) is Some,
        data.len() <= m.recv_window.window.0,
        data.len() <= m.streams.live[id].recv_window.window.0,
    ensures
        ({
            let (n, f) = m.takes_data(id, data, end_stream);
            let r = route_of(m.routes, id)->0;
            let told = m.effects.push(EffectModel::Buffered(data.len() as u32)).push(
                EffectModel::Deliver {
                    client: r.client,
                    event: EventModel::Data { id: r.client_id, data, end_stream },
                },
            );
            &&& f is None
            &&& n.recv_window.window.0 == m.recv_window.window.0 - data.len()
            &&& n.recv_window.unreleased == m.recv_window.unreleased
            &&& n.held() == m.held() + data.len()
            &&& !end_stream || m.pending.len() == 0 ==> n.output == m.output
            &&& !end_stream ==> {
                &&& n.effects == told
                &&& n.streams.live.contains_key(id)
                &&& n.streams.live[id].recv_window.window.0
                    == m.streams.live[id].recv_window.window.0 - data.len()
                &&& n.streams.live[id].recv_window.unreleased
                    == m.streams.live[id].recv_window.unreleased
            }
            &&& end_stream && m.pending.len() == 0 ==> n.effects == told.push(
                EffectModel::StreamClosed,
            )
        }),
{
    reveal(UpModel::takes_data);
    reveal(UpModel::forwards_data);
    reveal(UpModel::advances_to_end);
    reveal(UpModel::advances);
    let i = route_at(m.routes, id) as int;
    let r = m.routes[i];
    let len = data.len() as u32;
    lemma_owed_update(m.routes, i, r);
    let r2 = Route { pending_conn_release: (r.pending_conn_release + len) as u32, ..r };
    lemma_owed_update(m.routes, i, r2);
    let s = m.streams.live[id];
    let recorded = UpModel {
        recv_window: RecvWindow {
            window: Window((m.recv_window.window.0 - len) as i32),
            ..m.recv_window
        },
        streams: m.streams.with(
            id,
            StreamModel {
                recv_window: RecvWindow {
                    window: Window((s.recv_window.window.0 - len) as i32),
                    ..s.recv_window
                },
                ..s
            },
        ),
        summary: UpstreamSummary {
            data_bytes_received: counted(m.summary.data_bytes_received, len as int),
            ..m.summary
        },
        routes: m.routes.update(i, r2),
        ..m
    }.emits(EffectModel::Buffered(len)).tells(
        r.client,
        EventModel::Data { id: r.client_id, data, end_stream },
    );
    let (moved, f) = recorded.advances(id, StreamEvent::RecvData { end_stream });
    assert(f is None);
    assert(moved == (UpModel { streams: moved.streams, ready: moved.ready, ..recorded }));
    assert(m.takes_data(id, data, end_stream) == recorded.advances_to_end(
        id,
        StreamEvent::RecvData { end_stream },
        end_stream,
    ));
    if end_stream {
        lemma_completes_books(moved, id);
        lemma_route_stream(m.routes, id);
        lemma_route_at_updated(m.routes, id, r2);
        if m.pending.len() == 0 {
            reveal(UpModel::completes);
            reveal(UpModel::completes_route);
            let over = moved.without(id).completes_route(id);
            assert(over.starts_pending().0 == over);
        }
    }
}

/// The route of a stream carries its id.
pub proof fn lemma_route_stream(routes: Seq<Route>, id: u32)
    requires
        route_at(routes, id) < routes.len(),
    ensures
        routes[route_at(routes, id) as int].stream == id,
    decreases routes.len(),
{
    if route_at(routes.drop_last(), id) < routes.len() - 1 {
        lemma_route_stream(routes.drop_last(), id);
    }
}

/// Replacing the route of a stream leaves it where it was.
pub proof fn lemma_route_at_updated(routes: Seq<Route>, id: u32, r: Route)
    requires
        route_at(routes, id) < routes.len(),
        r.stream == id,
    ensures
        route_at(routes.update(route_at(routes, id) as int, r), id) == route_at(routes, id),
    decreases routes.len(),
{
    let i = route_at(routes, id) as int;
    let init = routes.drop_last();
    if route_at(init, id) < init.len() {
        lemma_route_at_updated(init, id, r);
        assert(routes.update(i, r).drop_last() =~= init.update(i, r));
    } else {
        assert(routes.update(i, r).drop_last() =~= init);
    }
}

/// A response that ended is held until its client has it: the backend gets
/// credit as the octets are confirmed, and for the rest at once if the client
/// gives up.
pub proof fn an_ended_response_is_settled_by_its_client(
    m: UpModel,
    request: u32,
    n: u32,
    code: ErrorCode,
)
    requires
        !m.requests.contains_key(request),
        ended_at(m.ended, request) < m.ended.len(),
        0 < n <= m.ended[ended_at(m.ended, request) as int].pending_conn_release,
    ensures
        ({
            let held = m.ended[ended_at(m.ended, request) as int].pending_conn_release;
            let (a, _) = m.hears(MessageModel::Released { id: request, n });
            let (b, _) = m.hears(MessageModel::Cancel { id: request, code });
            &&& a.recv_window == m.recv_window.released(n).0
            &&& a.held() == m.held() - n
            &&& b.recv_window == m.recv_window.released(held).0
            &&& b.held() == m.held() - held
        }),
{
    reveal(UpModel::settles);
    reveal(UpModel::settles_at);
    reveal(UpModel::cancels);
    reveal(UpModel::queues);
    let i = ended_at(m.ended, request) as int;
    let held = m.ended[i].pending_conn_release;
    lemma_outstanding_remove(m.ended, i);
    lemma_outstanding_update(
        m.ended,
        i,
        Ended { pending_conn_release: (held - n) as u32, ..m.ended[i] },
    );
}

/// The ended responses of other clients than one.
pub open spec fn held_for_others(ended: Seq<Ended>, client: u64) -> Seq<Ended>
    decreases ended.len(),
{
    if ended.len() == 0 {
        Seq::empty()
    } else if ended.last().client == client {
        held_for_others(ended.drop_last(), client)
    } else {
        held_for_others(ended.drop_last(), client).push(ended.last())
    }
}

/// Taking out the first response of a client takes nothing of the others.
proof fn lemma_first_of_client(ended: Seq<Ended>, client: u64)
    ensures
        ({
            let i = ended_for(ended, client) as int;
            &&& 0 <= i <= ended.len()
            &&& i < ended.len() ==> held_for_others(ended.remove(i), client) == held_for_others(
                ended,
                client,
            )
            &&& i == ended.len() ==> held_for_others(ended, client) == ended
        }),
    decreases ended.len(),
{
    if ended.len() > 0 {
        let init = ended.drop_last();
        lemma_first_of_client(init, client);
        let i = ended_for(ended, client) as int;
        if ended_for(init, client) < init.len() {
            assert(ended.remove(i).drop_last() =~= init.remove(i));
        } else if i < ended.len() {
            assert(ended.remove(i) =~= init);
        } else {
            assert(init.push(ended.last()) =~= ended);
        }
    }
}

/// A client that hangs up leaves nothing behind of the responses that had ended,
/// and takes nothing with it: what was held for it is credit again, to the octet,
/// what is held for others stays held, and every stream that is not over runs on.
pub proof fn nothing_is_held_for_a_client_that_left(m: UpModel, client: u64)
    ensures
        ({
            let (n, f) = m.hears(MessageModel::Left { client });
            &&& f is None
            &&& n.ended == held_for_others(m.ended, client)
            &&& n.routes == m.routes
            &&& n.streams == m.streams
            &&& n.requests == m.requests
            &&& n.pending == m.pending
            &&& m.within_window() ==> n.recv_window.window.0 + n.recv_window.unreleased + n.held()
                == m.recv_window.window.0 + m.recv_window.unreleased + m.held()
        }),
    decreases m.ended.len(),
{
    let i = ended_for(m.ended, client) as int;
    lemma_first_of_client(m.ended, client);
    if i < m.ended.len() {
        lemma_settles_all_at(m, i);
        let (n, f) = m.settles_at(i, u32::MAX);
        assert(f is None && n.routes == m.routes && n.streams == m.streams && n.requests
            == m.requests && n.pending == m.pending) by {
            reveal(UpModel::settles_at);
            reveal(UpModel::queues);
        }
        if m.within_window() {
            lemma_outstanding_remove(m.ended, i);
            lemma_settles_at_within(m, i, u32::MAX);
            assert(n.recv_window.window.0 + n.recv_window.unreleased + n.held()
                == m.recv_window.window.0 + m.recv_window.unreleased + m.held()) by {
                reveal(UpModel::settles_at);
                reveal(UpModel::queues);
            }
        }
        nothing_is_held_for_a_client_that_left(n, client);
        assert(n.hears(MessageModel::Left { client }) == n.departs(client));
    }
}

/// What a client has taken goes back to the backend at both levels.
pub proof fn taken_octets_are_released_at_both_levels(m: UpModel, id: u32, n: u32)
    requires
        n > 0,
        m.streams.live.contains_key(id),
        m.releases(id, n).1 is None,
    ensures
        m.releases(id, n).0.recv_window == m.recv_window.released(n).0,
        m.releases(id, n).0.streams.live.contains_key(id),
        m.releases(id, n).0.streams.live[id].recv_window
            == m.streams.live[id].recv_window.released(n).0,
{
    reveal(UpModel::releases);
    reveal(UpModel::queues);
}

/// A stream that dies gives its unconfirmed octets back to the connection
/// window: a cancelled download never shrinks it.
pub proof fn a_dead_stream_returns_what_it_held(m: UpModel, id: u32)
    requires
        route_of(m.routes, id) is Some,
        route_of(m.routes, id)->0.pending_conn_release > 0,
    ensures
        m.drops_route(id).recv_window == m.recv_window.released(
            route_of(m.routes, id)->0.pending_conn_release,
        ).0,
{
    reveal(UpModel::drops_route);
    reveal(UpModel::queues);
}

/// Ids reach the wire in the order §5.1.1 requires: a request that gets a
/// stream gets an odd id above every id before it, and never takes the
/// connection past the backend's limit.
pub proof fn stream_ids_reach_the_wire_in_order(
    m: UpModel,
    request: u32,
    client_id: u32,
    client: u64,
    head: RequestModel,
    end_stream: bool,
)
    requires
        m.streams.live.dom().finite(),
    ensures
        ({
            let n = m.sends_request(request, client_id, client, head, end_stream).0;
            &&& n.streams.highest_local >= m.streams.highest_local
            &&& n.routes == m.routes || {
                &&& n.routes.len() == m.routes.len() + 1
                &&& n.routes.last().stream > m.streams.highest_local
                &&& n.routes.last().stream == n.streams.highest_local
                &&& n.routes.last().stream % 2 == 1
                &&& n.streams.live.len() <= n.streams.max_concurrent
            }
        }),
{
    reveal(UpModel::sends_request);
    reveal(UpModel::starts_request);
    reveal(UpModel::queues);
    let id = crate::stream::low31(m.next_stream_id);
    let t = m.streams.locally_opens(id).0;
    let t2 = t.applies(id, StreamEvent::SendHeaders { end_stream }).0;
    if m.streams.locally_opens(id).1 is None {
        assert(t2.live.dom() =~= t.live.dom());
    }
}

/// Once the backend has said goodbye, no further request reaches it: its
/// client is told that nothing was processed.
pub proof fn a_draining_connection_starts_nothing(
    m: UpModel,
    request: u32,
    client_id: u32,
    client: u64,
    head: RequestModel,
    end_stream: bool,
)
    requires
        m.draining is Some,
        !m.cancelled.contains(request),
    ensures
        ({
            let (n, f) = m.sends_request(request, client_id, client, head, end_stream);
            &&& f is None
            &&& n == m.tells(
                client,
                EventModel::Reset { id: client_id, code: ErrorCode::RefusedStream },
            )
        }),
{
    reveal(UpModel::sends_request);
}

/// A request cancelled before it was looked at never reaches the backend.
pub proof fn a_request_cancelled_early_is_never_sent(
    m: UpModel,
    request: u32,
    code: ErrorCode,
    client_id: u32,
    client: u64,
    head: RequestModel,
    end_stream: bool,
)
    requires
        !m.requests.contains_key(request),
        ended_at(m.ended, request) == m.ended.len(),
    ensures
        ({
            let (n, f) = m.cancels(request, code);
            let (o, g) = n.sends_request(request, client_id, client, head, end_stream);
            &&& f is None && g is None
            &&& o.output == m.output
            &&& o.streams == m.streams
            &&& o.routes == m.routes
            &&& forall|i: int|
                0 <= i < o.pending.len() ==> (#[trigger] o.pending[i]).request != request
        }),
{
    reveal(UpModel::cancels);
    reveal(UpModel::sends_request);
    lemma_waiting_without(m.pending, request);
}

proof fn lemma_waiting_without(pending: Seq<PendingModel>, request: u32)
    ensures
        forall|i: int|
            0 <= i < waiting_without(pending, request).len() ==> (#[trigger] waiting_without(
                pending,
                request,
            )[i]).request != request,
    decreases pending.len(),
{
    if pending.len() > 0 {
        lemma_waiting_without(pending.drop_last(), request);
    }
}

// ---- a backend that goes away -----------------------------------------------

/// The routes at or below `last`: what the backend accepted.
pub open spec fn accepted(routes: Seq<Route>, last: u32) -> Seq<Route>
    decreases routes.len(),
{
    if routes.len() == 0 {
        Seq::empty()
    } else if routes.last().stream > last {
        accepted(routes.drop_last(), last)
    } else {
        accepted(routes.drop_last(), last).push(routes.last())
    }
}

/// The routes above `last`: what it provably never started.
pub open spec fn unstarted(routes: Seq<Route>, last: u32) -> Seq<Route>
    decreases routes.len(),
{
    if routes.len() == 0 {
        Seq::empty()
    } else if routes.last().stream > last {
        unstarted(routes.drop_last(), last).push(routes.last())
    } else {
        unstarted(routes.drop_last(), last)
    }
}

/// What becomes of a route the backend never started.
pub open spec fn route_refused(r: Route) -> Seq<EffectModel> {
    let told = seq![
        EffectModel::Deliver {
            client: r.client,
            event: EventModel::Reset { id: r.client_id, code: ErrorCode::RefusedStream },
        },
        EffectModel::StreamClosed,
    ];
    if r.pending_conn_release > 0 {
        told.push(EffectModel::Unbuffered(r.pending_conn_release))
    } else {
        told
    }
}

/// What becomes of every route the backend never started.
pub open spec fn routes_refused(routes: Seq<Route>) -> Seq<EffectModel>
    decreases routes.len(),
{
    if routes.len() == 0 {
        Seq::empty()
    } else {
        routes_refused(routes.drop_last()) + route_refused(routes.last())
    }
}

/// The streams at or below `last` are live as they were.
pub open spec fn live_kept(
    a: Map<u32, StreamModel>,
    b: Map<u32, StreamModel>,
    last: u32,
) -> bool {
    forall|id: u32|
        #![trigger b.contains_key(id)]
        #![trigger b[id]]
        id <= last && a.contains_key(id) ==> b.contains_key(id) && b[id] == a[id]
}

/// A GOAWAY is a drain request, not a hang-up: the routes the backend accepted
/// stay as they are, those it never started are refused in order, and so is
/// every request that was waiting.
pub proof fn a_goaway_keeps_what_was_accepted(m: UpModel, last: u32, now: u64)
    ensures
        ({
            let n = m.starts_drain(last, now);
            &&& n.routes == accepted(m.routes, last)
            &&& n.pending.len() == 0
            &&& n.draining == Some((last, later(now, PEER_DRAIN_DEADLINE)))
            &&& n.effects == m.effects.push(EffectModel::Retire) + pending_told(m.pending, true)
                + routes_refused(unstarted(m.routes, last))
            &&& live_kept(m.streams.live, n.streams.live, last)
        }),
{
    reveal(UpModel::starts_drain);
    let m1 = m.emits(EffectModel::Retire);
    let m2 = UpModel {
        draining: Some((last, later(now, PEER_DRAIN_DEADLINE))),
        pending: Seq::empty(),
        effects: m1.effects + pending_told(m1.pending, true),
        ..m1
    };
    let ids = above(m2.routes, last);
    lemma_above_unstarted(m2.routes, last);
    lemma_abandons(m2, last, ids.len() as int);
    assert(ids.take(ids.len() as int) =~= ids);
    let n = m2.abandons(ids);
    assert(unstarted(m.routes, last).skip(ids.len() as int) =~= Seq::empty());
    assert(unstarted(m.routes, last).take(ids.len() as int) =~= unstarted(m.routes, last));
    lemma_nothing_unstarted(n.routes, last);
}

proof fn lemma_above_unstarted(routes: Seq<Route>, last: u32)
    ensures
        above(routes, last).len() == unstarted(routes, last).len(),
        forall|i: int|
            0 <= i < above(routes, last).len() ==> #[trigger] above(routes, last)[i] == unstarted(
                routes,
                last,
            )[i].stream && above(routes, last)[i] > last,
    decreases routes.len(),
{
    if routes.len() > 0 {
        lemma_above_unstarted(routes.drop_last(), last);
    }
}

/// Where nothing is left unstarted, all that is there was accepted.
proof fn lemma_nothing_unstarted(routes: Seq<Route>, last: u32)
    requires
        unstarted(routes, last).len() == 0,
    ensures
        accepted(routes, last) == routes,
    decreases routes.len(),
{
    if routes.len() > 0 {
        lemma_nothing_unstarted(routes.drop_last(), last);
        assert(accepted(routes, last) =~= routes);
    }
}

/// The first unstarted route is the one its stream id finds, and taking it out
/// takes nothing else.
proof fn lemma_first_unstarted(routes: Seq<Route>, last: u32)
    requires
        unstarted(routes, last).len() > 0,
    ensures
        ({
            let r = unstarted(routes, last)[0];
            let i = route_at(routes, r.stream);
            &&& i < routes.len()
            &&& routes[i as int] == r
            &&& unstarted(routes.remove(i as int), last) == unstarted(routes, last).skip(1)
            &&& accepted(routes.remove(i as int), last) == accepted(routes, last)
        }),
    decreases routes.len(),
{
    let head = routes.drop_last();
    let r = unstarted(routes, last)[0];
    if unstarted(head, last).len() > 0 {
        lemma_first_unstarted(head, last);
        let i = route_at(head, r.stream) as int;
        assert(unstarted(head, last)[0] == r);
        assert(route_at(routes, r.stream) == i);
        assert(routes.remove(i).drop_last() =~= head.remove(i));
        assert(unstarted(routes.remove(i), last) =~= unstarted(routes, last).skip(1));
    } else {
        lemma_nothing_unstarted(head, last);
        lemma_route_absent(head, r.stream, last);
        assert(routes.remove(routes.len() - 1) =~= head);
        assert(unstarted(routes, last).skip(1) =~= Seq::empty());
        assert(unstarted(head, last) =~= Seq::empty());
    }
}

proof fn lemma_route_absent(routes: Seq<Route>, id: u32, last: u32)
    requires
        unstarted(routes, last).len() == 0,
        id > last,
    ensures
        route_at(routes, id) == routes.len(),
    decreases routes.len(),
{
    if routes.len() > 0 {
        lemma_route_absent(routes.drop_last(), id, last);
    }
}

/// With nothing waiting, forgetting a stream starts nothing.
proof fn lemma_forgets_alone(m: UpModel, id: u32)
    requires
        m.pending.len() == 0,
    ensures
        m.forgets(id) == m.without(id).drops_route(id),
        m.forgets(id).pending == m.pending,
        m.forgets(id).draining == m.draining,
        m.forgets(id).streams == m.streams.without(id),
{
    reveal(UpModel::forgets);
    lemma_drops_route(m.without(id), id);
}

/// Abandoning the first `k` unstarted streams.
proof fn lemma_abandons(m: UpModel, last: u32, k: int)
    requires
        m.pending.len() == 0,
        0 <= k <= above(m.routes, last).len(),
    ensures
        ({
            let n = m.abandons(above(m.routes, last).take(k));
            let gone = unstarted(m.routes, last);
            &&& unstarted(n.routes, last) == gone.skip(k)
            &&& accepted(n.routes, last) == accepted(m.routes, last)
            &&& n.pending == m.pending
            &&& n.draining == m.draining
            &&& n.effects == m.effects + routes_refused(gone.take(k))
            &&& live_kept(m.streams.live, n.streams.live, last)
        }),
    decreases k,
{
    let ids = above(m.routes, last);
    let gone = unstarted(m.routes, last);
    lemma_above_unstarted(m.routes, last);
    if k == 0 {
        assert(ids.take(0) =~= Seq::empty());
        assert(gone.skip(0) =~= gone);
        assert(gone.take(0) =~= Seq::empty());
        assert(m.effects + routes_refused(gone.take(0)) =~= m.effects);
    } else {
        lemma_abandons(m, last, k - 1);
        let a = m.abandons(ids.take(k - 1));
        assert(ids.take(k).drop_last() =~= ids.take(k - 1));
        assert(gone.take(k).drop_last() =~= gone.take(k - 1));
        let id = ids[k - 1];
        let r = gone[k - 1];
        assert(unstarted(a.routes, last)[0] == r);
        lemma_first_unstarted(a.routes, last);
        let i = route_at(a.routes, id) as int;
        let event = EventModel::Reset {
            id: r.client_id,
            code: ErrorCode::RefusedStream,
        };
        let b = a.tells(r.client, event);
        lemma_forgets_alone(b, id);
        let n = m.abandons(ids.take(k));
        assert(n == b.forgets(id));
        assert(n.routes == a.routes.remove(i)) by {
            reveal(UpModel::drops_route);
            reveal(UpModel::queues);
        }
        assert(n.effects =~= a.effects + route_refused(r)) by {
            reveal(UpModel::drops_route);
            reveal(UpModel::queues);
        }
        assert(gone.skip(k - 1).skip(1) =~= gone.skip(k));
        assert(n.effects =~= m.effects + routes_refused(gone.take(k)));
    }
}

// ---- nobody is left waiting -------------------------------------------------

/// When a connection dies, every client waiting on it hears so, once for each
/// stream: an abort where the status line is already out, and otherwise that
/// the backend is gone.
pub proof fn nobody_is_left_waiting(m: UpModel, i: int, k: int)
    ensures
        ({
            let n = m.fails_all();
            let r = m.routes[i];
            let p = m.pending[k];
            &&& n.routes.len() == 0 && n.pending.len() == 0 && n.requests =~= Map::empty()
            &&& 0 <= i < m.routes.len() ==> n.effects.contains(
                EffectModel::Deliver {
                    client: r.client,
                    event: if r.head_sent {
                        EventModel::Reset {
                            id: r.client_id,
                            code: ErrorCode::InternalError,
                        }
                    } else {
                        EventModel::Gone { id: r.client_id }
                    },
                },
            )
            &&& 0 <= k < m.pending.len() ==> n.effects.contains(
                EffectModel::Deliver {
                    client: p.client,
                    event: EventModel::Gone { id: p.client_id },
                },
            )
        }),
{
    let n = m.fails_all();
    let told = pending_told(m.pending, false);
    let lost = routes_lost(m.routes);
    assert(n.effects.take((m.effects.len() + told.len() + lost.len()) as int) =~= m.effects + told
        + lost);
    if 0 <= i < m.routes.len() {
        lemma_routes_lost(m.routes, i);
        let p = choose|p: int|
            0 <= p < lost.len() && #[trigger] lost[p] == route_lost(m.routes[i]).last();
        assert(n.effects[m.effects.len() + told.len() + p] == lost[p]);
    }
    if 0 <= k < m.pending.len() {
        lemma_pending_told(m.pending, k);
        assert(n.effects[m.effects.len() + k] == told[k]);
    }
}

/// An answer that the death of its connection cut short is reported as evidence
/// against the backend.
pub proof fn a_lost_answer_is_evidence(m: UpModel, i: int)
    requires
        0 <= i < m.routes.len(),
        m.routes[i].head_sent,
    ensures
        m.fails_all().effects.contains(
            EffectModel::Failure { client: m.routes[i].client, id: m.routes[i].client_id },
        ),
{
    let failure = EffectModel::Failure { client: m.routes[i].client, id: m.routes[i].client_id };
    let n = m.fails_all();
    let before = m.effects + pending_told(m.pending, false);
    let lost = routes_lost(m.routes);
    lemma_routes_lost(m.routes, i);
    let p = choose|p: int| 0 <= p < lost.len() && #[trigger] lost[p] == failure;
    assert(n.effects[before.len() + p] == lost[p]);
}

proof fn lemma_pending_told(pending: Seq<PendingModel>, k: int)
    requires
        0 <= k < pending.len(),
    ensures
        pending_told(pending, false).len() == pending.len(),
        pending_told(pending, false)[k] == (EffectModel::Deliver {
            client: pending[k].client,
            event: EventModel::Gone { id: pending[k].client_id },
        }),
    decreases pending.len(),
{
    if k < pending.len() - 1 {
        lemma_pending_told(pending.drop_last(), k);
    } else if pending.len() > 1 {
        lemma_pending_told(pending.drop_last(), 0);
    } else {
        assert(pending.drop_last() =~= Seq::empty());
        assert(pending_told(pending.drop_last(), false).len() == 0);
    }
}

proof fn lemma_routes_lost(routes: Seq<Route>, i: int)
    requires
        0 <= i < routes.len(),
    ensures
        exists|p: int|
            0 <= p < routes_lost(routes).len() && #[trigger] routes_lost(routes)[p] == route_lost(
                routes[i],
            ).last(),
        routes[i].head_sent ==> exists|p: int|
            0 <= p < routes_lost(routes).len() && #[trigger] routes_lost(routes)[p] == (
            EffectModel::Failure { client: routes[i].client, id: routes[i].client_id }),
    decreases routes.len(),
{
    let before = routes_lost(routes.drop_last());
    let all = routes_lost(routes);
    let failure = EffectModel::Failure { client: routes[i].client, id: routes[i].client_id };
    if i < routes.len() - 1 {
        lemma_routes_lost(routes.drop_last(), i);
        let p = choose|p: int|
            0 <= p < before.len() && #[trigger] before[p] == route_lost(routes[i]).last();
        assert(all[p] == before[p]);
        if routes[i].head_sent {
            let q = choose|q: int|
                0 <= q < before.len() && #[trigger] before[q] == failure;
            assert(all[q] == before[q]);
        }
    } else {
        let p = before.len() + route_lost(routes[i]).len() - 1;
        assert(all[p] == route_lost(routes[i]).last());
        if routes[i].head_sent {
            assert(all[p - 1] == failure);
        }
    }
}

// ---- a backend that answers nonsense ----------------------------------------

/// What was reported stays reported.
pub open spec fn reports_on(a: UpModel, b: UpModel) -> bool {
    &&& a.effects.len() <= b.effects.len()
    &&& forall|i: int| 0 <= i < a.effects.len() ==> #[trigger] b.effects[i] == a.effects[i]
}

proof fn lemma_starts_pending_reports(m: UpModel)
    ensures
        reports_on(m, m.starts_pending().0),
    decreases m.pending.len(),
{
    if m.streams.live.len() < m.streams.max_concurrent && m.pending.len() > 0 {
        lemma_starts_oldest_pending(m);
        let (n, f) = m.starts_oldest();
        assert(reports_on(m, n)) by {
            reveal(UpModel::starts_oldest);
            reveal(UpModel::sends_request);
            reveal(UpModel::starts_request);
            reveal(UpModel::queues);
        }
        if f is None {
            lemma_starts_pending_reports(n);
        }
    }
}

pub proof fn lemma_forgets_reports(m: UpModel, id: u32)
    ensures
        reports_on(m, m.forgets(id)),
{
    reveal(UpModel::forgets);
    let a = m.without(id).drops_route(id);
    assert(reports_on(m, a)) by {
        reveal(UpModel::drops_route);
        reveal(UpModel::queues);
    }
    lemma_starts_pending_reports(a);
}

pub proof fn lemma_completes_reports(m: UpModel, id: u32)
    ensures
        reports_on(m, m.completes(id)),
{
    reveal(UpModel::completes);
    let a = m.without(id).completes_route(id);
    assert(reports_on(m, a)) by {
        reveal(UpModel::completes_route);
    }
    lemma_starts_pending_reports(a);
}

/// A backend whose answer is malformed has not answered: the failure is reported,
/// and then its client is answered 502, or hears an abort where the answer had
/// begun. A trailer section that is malformed, or does not end the response, is
/// such an answer, and so is a preview that ends it: nothing of the kind is
/// dropped with its client left waiting.
pub proof fn a_malformed_answer_counts_against_its_backend(
    m: UpModel,
    id: u32,
    fields: Seq<HeaderModel>,
    end_stream: bool,
)
    requires
        route_of(m.routes, id) is Some,
    ensures
        ({
            let n = m.fails_stream(id).0;
            let r = route_of(m.routes, id)->0;
            let at = m.effects.len() as int;
            &&& n.effects.len() > at + 1
            &&& n.effects[at] == (EffectModel::Failure { client: r.client, id: r.client_id })
            &&& n.effects[at + 1] == (EffectModel::Deliver {
                client: r.client,
                event: if r.head_sent {
                    EventModel::Reset { id: r.client_id, code: ErrorCode::InternalError }
                } else {
                    EventModel::Head { id: r.client_id, response: bare(502), end_stream: true }
                },
            })
        }),
        m.streams.live.contains_key(id) && (if route_of(m.routes, id)->0.head_sent {
            !end_stream || !are_trailers(fields)
        } else {
            !is_response(fields) || (end_stream && 100 <= response_of(fields).status < 200)
        }) ==> m.takes_response(id, fields, end_stream) == m.fails_stream(id),
{
    reveal(UpModel::fails_stream);
    reveal(UpModel::takes_response);
    reveal(UpModel::queues);
    let told = m.reports_failure(id);
    lemma_forgets_reports(told, id);
    lemma_forgets_reports(told.resets(id, ErrorCode::Cancel).0, id);
    let n = m.fails_stream(id).0;
    assert(reports_on(told, n));
    let at = m.effects.len() as int;
    assert(n.effects[at] == told.effects[at]);
    assert(n.effects[at + 1] == told.effects[at + 1]);
}

// ---- sending ----------------------------------------------------------------

/// Failing a stream leaves the send window alone.
proof fn lemma_advances_send_window(m: UpModel, id: u32, event: StreamEvent)
    ensures
        m.advances(id, event).0.send_window == m.send_window,
{
    reveal(UpModel::advances);
    reveal(UpModel::fails_stream);
    reveal(UpModel::forgets);
    reveal(UpModel::queues);
    assert forall|n: UpModel| #[trigger] n.drops_route(id).send_window == n.send_window by {
        lemma_drops_route(n, id);
    }
    assert forall|n: UpModel| (#[trigger] n.starts_pending()).0.send_window == n.send_window by {
        lemma_starts_pending(n);
    }
}

impl UpModel {
    /// The octets a visit to `id` writes, where it writes.
    pub open spec fn next_chunk(self, id: u32) -> Seq<u8> {
        let s = self.streams.live[id];
        taken_front(
            s.send_queue,
            visit_budget(s.send_window, self.send_window, self.peer.max_frame_size),
        ).0
    }
}

/// A visit never sends request octets that the backend did not credit, at
/// either level, nor a frame larger than it accepts, and it spends exactly
/// what it sends.
pub proof fn a_request_visit_spends_exactly_what_it_sends(m: UpModel, id: u32)
    requires
        m.streams.live.contains_key(id),
    ensures
        m.next_chunk(id).len() <= m.streams.live[id].send_window.spendable(),
        m.next_chunk(id).len() <= m.send_window.spendable(),
        m.next_chunk(id).len() <= m.peer.max_frame_size,
        m.next_chunk(id).len() <= SEND_BUDGET,
        m.visits(id).1 matches Ok(None) ==> m.visits(id).0.send_window == m.send_window
            && m.visits(id).0.output == m.output,
        m.visits(id).0.send_window.0 == m.send_window.0 || m.visits(id).0.send_window.0
            == m.send_window.0 - m.next_chunk(id).len(),
        m.visits(id).1 matches Ok(Some(_)) ==> m.visits(id).0.send_window.0
            == m.send_window.0 - m.next_chunk(id).len(),
{
    reveal(UpModel::visits);
    let s = m.streams.live[id];
    let most = visit_budget(s.send_window, m.send_window, m.peer.max_frame_size);
    crate::conn::engine::lemma_taken_len(s.send_queue, most);
    assert forall|n: UpModel, end: bool, trailers: Option<Seq<HeaderModel>>|
        (#[trigger] n.sends_chunk(id, m.next_chunk(id), end, trailers)).0.send_window
            == n.send_window && n.sends_chunk(id, m.next_chunk(id), end, trailers).1 != Ok::<
            Option<bool>,
            Fault,
        >(None) by {
        lemma_sends_chunk_send_window(n, id, m.next_chunk(id), end, trailers);
    }
}

proof fn lemma_sends_chunk_send_window(
    m: UpModel,
    id: u32,
    chunk: Seq<u8>,
    end_stream: bool,
    trailers: Option<Seq<HeaderModel>>,
)
    ensures
        m.sends_chunk(id, chunk, end_stream, trailers).0.send_window == m.send_window,
        m.sends_chunk(id, chunk, end_stream, trailers).1 != Ok::<Option<bool>, Fault>(None),
{
    reveal(UpModel::sends_chunk);
    reveal(UpModel::queues);
    assert forall|n: UpModel, event: StreamEvent|
        (#[trigger] n.advances(id, event)).0.send_window == n.send_window by {
        lemma_advances_send_window(n, id, event);
    }
}

/// The preface comes first, then our SETTINGS.
pub proof fn the_preface_comes_first(t: Tuning)
    ensures
        extends(encode_utf8(PREFACE@), UpModel::initial(t).starts().0.output),
{
    reveal(UpModel::queues);
    let preface = encode_utf8(PREFACE@);
    let out = UpModel::initial(t).starts().0.output;
    assert(out.take(preface.len() as int) =~= preface);
}

} // verus!
