//! What each frame of a backend and each message of a client is for.
//!
//! The steps of the connection are stated one by one elsewhere; these laws say
//! what they come to, for whoever is at the other end: that credit given can be
//! used, that settings are obeyed, that a request and its body reach the backend
//! as they were, and an answer its client.

use crate::conn::engine::{counted, lemma_taken_len, PREFACE};
use crate::conn::exchange::headers_went;
use crate::conn::{advertised, lemma_window_setting, settings_applied, ErrorCode, Fault};
use crate::flow::Window;
use crate::frame::{encoded, FrameModel};
use crate::hpack::{
    encode_then_decode_is_identity, in_step, lengths_fit, list_cost, DecoderModel, HeaderModel,
    HpackFault,
};
use crate::service::{
    a_response_is_what_its_fields_say, are_trailers, is_request, is_response, no_pseudo,
    request_field, request_headers, request_of, requests_round_trip, response_of, EventModel,
    RequestModel,
};
use crate::sched::{
    rebuilding_the_ring_keeps_the_living, sending_preserves_the_octets, taken_front, visit_budget,
};
use crate::stream::{low31, total_len, StreamEvent, StreamModel};
use crate::upstream::laws::{
    lemma_completes_reports, lemma_forgets_reports, lemma_route_at_updated, lemma_route_stream,
    reports_on, response_octets_are_held_for_the_client,
};
use crate::upstream::model::{
    lemma_laps_progress, lemma_starts_oldest_pending, queue_with, route_at, route_of, up_lap,
    waiting_at, waiting_without, EffectModel, MessageModel, PendingModel, Route, UpModel,
    UpstreamSummary, MAX_HEADER_BLOCK_BYTES, MAX_WRITE_QUEUE,
};
use crate::upstream::probe::ActionModel;
use vstd::prelude::*;
use vstd::utf8::encode_utf8;

verus! {

// ---- what the backend says ----------------------------------------------------

/// Credit is honoured. A WINDOW_UPDATE for a live stream makes its send window
/// larger by exactly the increment, touches no other window, and puts the stream
/// in line where it has octets to send; one for the connection does the same for
/// the connection's. Nothing else changes.
pub proof fn credit_is_honoured(m: UpModel, id: u32, increment: u32, other: u32, now: u64)
    requires
        m.open_block is None,
        increment > 0,
    ensures
        ({
            let (n, f) = m.handles(FrameModel::WindowUpdate { stream_id: id, increment }, now);
            let s = m.streams.live[id];
            let t = n.streams.live[id];
            id != 0 && m.streams.live.contains_key(id) && s.send_window.0 + increment
                <= 0x7fff_ffff ==> {
                &&& f is None
                &&& n.streams.live.contains_key(id)
                &&& t.send_window.0 == s.send_window.0 + increment
                &&& t == (StreamModel { send_window: t.send_window, queued: t.queued, ..s })
                &&& s.send_queue.len() > 0 || s.send_end_stream ==> t.queued && (s.queued
                    || n.ready == m.ready.push(id))
                &&& s.queued ==> t.queued && n.ready == m.ready
                &&& other != id ==> n.streams.live.contains_key(other)
                    == m.streams.live.contains_key(other) && n.streams.live[other]
                    == m.streams.live[other]
                &&& n.send_window == m.send_window
                &&& n == (UpModel { streams: n.streams, ready: n.ready, ..m })
            }
        }),
        ({
            let (n, f) = m.handles(FrameModel::WindowUpdate { stream_id: 0, increment }, now);
            m.send_window.0 + increment <= 0x7fff_ffff ==> {
                &&& f is None
                &&& n.send_window.0 == m.send_window.0 + increment
                &&& n == (UpModel { send_window: n.send_window, ..m })
            }
        }),
{
    reveal(UpModel::takes_credit);
}

/// Credit past the largest window there is ends what it was for: the stream, with
/// a reset that names the fault, or the connection.
pub proof fn credit_past_the_largest_window_is_a_fault(
    m: UpModel,
    id: u32,
    increment: u32,
    now: u64,
)
    requires
        m.open_block is None,
    ensures
        m.send_window.0 + increment > 0x7fff_ffff ==> ({
            let (n, f) = m.handles(FrameModel::WindowUpdate { stream_id: 0, increment }, now);
            n == m && f is Some && f->0.code == ErrorCode::FlowControlError
        }),
        m.handles(FrameModel::WindowUpdate { stream_id: 0, increment: 0 }, now).1 is Some,
        m.handles(FrameModel::WindowUpdate { stream_id: 0, increment: 0 }, now).1->0.code
            == ErrorCode::ProtocolError,
        id != 0 && increment > 0 && !m.streams.live.contains_key(id) ==> ({
            let (n, f) = m.handles(FrameModel::WindowUpdate { stream_id: id, increment }, now);
            n == m && (f is Some <==> !(id <= m.streams.highest_local || id
                <= m.streams.highest_peer))
        }),
{
    reveal(UpModel::takes_credit);
}

/// Settings are obeyed: every live stream's send window moves by as much as the
/// initial window did, streams that are yet to come start from the new one, the
/// backend's concurrency limit is taken over and reported, the compressor keeps
/// to the table it was given, and the settings are acknowledged.
pub proof fn settings_are_obeyed(m: UpModel, params: Seq<(u16, u32)>, id: u32, now: u64)
    requires
        m.open_block is None,
        m.peer.initial_window_size <= 0x7fff_ffff,
        m.handles(FrameModel::Settings { ack: false, params }, now).1 is None,
    ensures
        ({
            let n = m.handles(FrameModel::Settings { ack: false, params }, now).0;
            let delta = n.peer.initial_window_size - m.peer.initial_window_size;
            &&& n.peer == settings_applied(m.peer, params).0
            &&& n.streams.live.contains_key(id) == m.streams.live.contains_key(id)
            &&& m.streams.live.contains_key(id) && m.streams.live[id].send_window.0 + delta
                >= i32::MIN ==> n.streams.live[id] == (StreamModel {
                send_window: Window((m.streams.live[id].send_window.0 + delta) as i32),
                ..m.streams.live[id]
            })
            &&& i32::MIN <= m.streams.initial_send_window + delta <= i32::MAX
                ==> n.streams.initial_send_window == m.streams.initial_send_window + delta
            &&& n.send_window == m.send_window
            &&& n.peer.max_concurrent_streams matches Some(max) ==> n.streams.max_concurrent == max
                && n.effects == m.effects.push(EffectModel::MaxConcurrent(max))
            &&& n.peer.max_concurrent_streams is None ==> n.streams.max_concurrent
                == m.streams.max_concurrent && n.effects == m.effects
            &&& n.enc.table.max_size == n.peer.header_table_size
            &&& n.output == m.output + encoded(
                FrameModel::Settings { ack: true, params: Seq::empty() },
            )->Ok_0
            &&& n.routes == m.routes && n.pending == m.pending && n.recv_window == m.recv_window
        }),
{
    reveal(UpModel::takes_settings);
    reveal(UpModel::queues);
    lemma_window_setting(m.peer, params);
}

/// An acknowledgement asks for nothing, and a PING is answered with what it
/// carried.
pub proof fn a_ping_is_answered_with_what_it_carried(
    m: UpModel,
    data: Seq<u8>,
    params: Seq<(u16, u32)>,
    now: u64,
)
    requires
        m.open_block is None,
        data.len() == 8,
    ensures
        ({
            let (n, f) = m.handles(FrameModel::Ping { data, ack: false }, now);
            &&& f is None
            &&& n.output == m.output + encoded(FrameModel::Ping { data, ack: true })->Ok_0
            &&& n == (UpModel { output: n.output, ..m })
        }),
        m.handles(FrameModel::Settings { ack: true, params }, now) == (m, None::<Fault>),
{
    reveal(UpModel::queues);
}

/// A reset is passed on to the client of the stream with the code it came with,
/// and the stream is gone.
pub proof fn a_reset_is_passed_on(m: UpModel, id: u32, code: ErrorCode, now: u64)
    requires
        m.open_block is None,
        route_of(m.routes, id) is Some,
    ensures
        ({
            let (n, f) = m.handles(FrameModel::RstStream { stream_id: id, error_code: code }, now);
            let r = route_of(m.routes, id)->0;
            let at = m.effects.len() as int;
            &&& f is None
            &&& reports_on(m, n)
            &&& n.effects.len() > at
            &&& n.effects[at] == (EffectModel::Deliver {
                client: r.client,
                event: EventModel::Reset { id: r.client_id, code },
            })
            &&& m.pending.len() == 0 ==> !n.streams.live.contains_key(id)
        }),
{
    reveal(UpModel::takes_reset);
    let r = route_of(m.routes, id)->0;
    let n = m.handles(FrameModel::RstStream { stream_id: id, error_code: code }, now).0;
    let a = UpModel {
        summary: UpstreamSummary {
            streams_reset: counted(m.summary.streams_reset, 1),
            ..m.summary
        },
        ..m
    }.tells(r.client, EventModel::Reset { id: r.client_id, code });
    lemma_forgets_reports(a, id);
    assert(m.takes_reset(id, code) == a.forgets(id));
    assert(n.effects == a.forgets(id).effects);
    assert(n.effects[m.effects.len() as int] == a.effects[m.effects.len() as int]);
    assert forall|i: int| 0 <= i < m.effects.len() implies #[trigger] n.effects[i]
        == m.effects[i] by {
        assert(n.effects[i] == a.effects[i]);
    }
    if m.pending.len() == 0 {
        reveal(UpModel::forgets);
        reveal(UpModel::drops_route);
        reveal(UpModel::queues);
    }
}

/// An answer's head reaches its client as it was: with the status it came with,
/// every regular field in order with its value and its mark, and its end if it
/// has one. A preview reaches nobody, and the answer is still awaited.
pub proof fn an_answer_is_delivered_as_it_came(
    m: UpModel,
    id: u32,
    block: Seq<u8>,
    fields: Seq<HeaderModel>,
    end_stream: bool,
    now: u64,
)
    requires
        m.open_block is None,
        m.header_block.len() == 0,
        block.len() <= MAX_HEADER_BLOCK_BYTES,
        m.dec.decoded(block).1 == Ok::<Seq<HeaderModel>, HpackFault>(fields),
        m.streams.live.contains_key(id),
        m.streams.live[id].state.remote_open(),
        route_of(m.routes, id) is Some,
        !route_of(m.routes, id)->0.head_sent,
        is_response(fields),
    ensures
        ({
            let (n, f) = m.handles(
                FrameModel::Headers { stream_id: id, block, end_stream, end_headers: true },
                now,
            );
            let r = route_of(m.routes, id)->0;
            let at = m.effects.len() as int;
            let v = fields[0].value;
            let status = 100 * (v[0] - 48) + 10 * (v[1] - 48) + (v[2] - 48);
            &&& status >= 200 || !end_stream ==> f is None && reports_on(m, n)
            &&& status >= 200 ==> {
                &&& n.effects.len() > at
                &&& n.effects[at] matches EffectModel::Deliver { client, event }
                &&& client == r.client
                &&& event matches EventModel::Head { id: to, response, end_stream: ends }
                &&& to == r.client_id
                &&& response.status == status
                &&& response.fields == fields.skip(1)
                &&& ends == end_stream
            }
            &&& status >= 200 && !end_stream ==> n.effects.len() == at + 1
                && n.streams.live.contains_key(id) && route_of(n.routes, id) == Some(
                Route { head_sent: true, ..r },
            )
            &&& status < 200 && !end_stream ==> n.effects == m.effects && n.routes == m.routes
                && n.streams.live.contains_key(id)
        }),
{
    a_response_is_what_its_fields_say(fields);
    let frame = FrameModel::Headers { stream_id: id, block, end_stream, end_headers: true };
    let x = UpModel {
        open_end: end_stream,
        dec: m.dec.decoded(block).0,
        header_block: Seq::empty(),
        ..m
    };
    assert(m.header_block + block =~= block);
    let (y, f) = x.takes_response(id, fields, end_stream);
    assert(m.acts_on(frame, now) == (y, f)) by {
        reveal(UpModel::takes_fragment);
    }
    let v = fields[0].value;
    let status = 100 * (v[0] - 48) + 10 * (v[1] - 48) + (v[2] - 48);
    if status >= 200 {
        lemma_answer_told(x, id, fields, end_stream);
    } else if !end_stream {
        reveal(UpModel::takes_response);
        reveal(UpModel::advances);
    }
}

/// What becomes of a final head.
proof fn lemma_answer_told(m: UpModel, id: u32, fields: Seq<HeaderModel>, end_stream: bool)
    requires
        m.streams.live.contains_key(id),
        m.streams.live[id].state.remote_open(),
        route_of(m.routes, id) is Some,
        !route_of(m.routes, id)->0.head_sent,
        is_response(fields),
        response_of(fields).status >= 200,
    ensures
        ({
            let (n, f) = m.takes_response(id, fields, end_stream);
            let r = route_of(m.routes, id)->0;
            let at = m.effects.len() as int;
            &&& f is None
            &&& reports_on(m, n)
            &&& n.effects.len() > at
            &&& n.effects[at] == (EffectModel::Deliver {
                client: r.client,
                event: EventModel::Head {
                    id: r.client_id,
                    response: response_of(fields),
                    end_stream,
                },
            })
            &&& !end_stream ==> n.effects.len() == at + 1 && n.streams.live.contains_key(id)
                && route_of(n.routes, id) == Some(Route { head_sent: true, ..r })
        }),
{
    let i = route_at(m.routes, id) as int;
    let r = m.routes[i];
    lemma_route_stream(m.routes, id);
    lemma_route_at_updated(m.routes, id, Route { head_sent: true, ..r });
    let told = UpModel {
        routes: m.routes.update(i, Route { head_sent: true, ..r }),
        ..m
    }.tells(
        r.client,
        EventModel::Head { id: r.client_id, response: response_of(fields), end_stream },
    );
    let noted = UpModel {
        summary: UpstreamSummary {
            responses_received: counted(told.summary.responses_received, 1),
            ..told.summary
        },
        ..told
    };
    let event = StreamEvent::RecvHeaders { end_stream };
    assert(m.takes_response(id, fields, end_stream) == noted.advances_to_end(
        id,
        event,
        end_stream,
    )) by {
        reveal(UpModel::takes_response);
    }
    let (moved, f) = noted.advances(id, event);
    assert(f is None && moved.effects == noted.effects && moved.routes == noted.routes && (
    !end_stream ==> moved.streams.live.contains_key(id))) by {
        reveal(UpModel::advances);
    }
    reveal(UpModel::advances_to_end);
    lemma_completes_reports(moved, id);
    let n = m.takes_response(id, fields, end_stream).0;
    let at = m.effects.len() as int;
    assert(n.effects[at] == noted.effects[at]);
}

/// A trailer section reaches its client as it came, once the head has.
pub proof fn trailers_are_delivered_as_they_came(
    m: UpModel,
    id: u32,
    block: Seq<u8>,
    fields: Seq<HeaderModel>,
    now: u64,
)
    requires
        m.open_block is None,
        m.header_block.len() == 0,
        block.len() <= MAX_HEADER_BLOCK_BYTES,
        m.dec.decoded(block).1 == Ok::<Seq<HeaderModel>, HpackFault>(fields),
        m.streams.live.contains_key(id),
        m.streams.live[id].state.remote_open(),
        route_of(m.routes, id) is Some,
        route_of(m.routes, id)->0.head_sent,
        are_trailers(fields),
    ensures
        ({
            let (n, f) = m.handles(
                FrameModel::Headers {
                    stream_id: id,
                    block,
                    end_stream: true,
                    end_headers: true,
                },
                now,
            );
            let r = route_of(m.routes, id)->0;
            let at = m.effects.len() as int;
            &&& f is None
            &&& reports_on(m, n)
            &&& n.effects.len() > at
            &&& n.effects[at] == (EffectModel::Deliver {
                client: r.client,
                event: EventModel::Trailers { id: r.client_id, fields },
            })
        }),
{
    reveal(UpModel::takes_fragment);
    reveal(UpModel::takes_response);
    reveal(UpModel::advances_to_end);
    reveal(UpModel::advances);
    assert(m.header_block + block =~= block);
    assert forall|a: UpModel| reports_on(a, #[trigger] a.completes(id)) by {
        lemma_completes_reports(a, id);
    }
    let n = m.handles(
        FrameModel::Headers { stream_id: id, block, end_stream: true, end_headers: true },
        now,
    ).0;
    let r = route_of(m.routes, id)->0;
    let told = UpModel {
        open_end: true,
        dec: m.dec.decoded(block).0,
        header_block: Seq::empty(),
        ..m
    }.tells(r.client, EventModel::Trailers { id: r.client_id, fields });
    assert(told.effects[m.effects.len() as int] == n.effects[m.effects.len() as int]);
}

/// Body octets reach the client as they came, in the frame they came in, with
/// their end if they have one.
pub proof fn body_octets_are_delivered_as_they_came(
    m: UpModel,
    id: u32,
    data: Seq<u8>,
    now: u64,
)
    requires
        m.open_block is None,
        m.within_window(),
        m.streams.live.contains_key(id),
        m.streams.live[id].state.remote_open(),
        route_of(m.routes, id) is Some,
        data.len() <= m.recv_window.window.0,
        data.len() <= m.streams.live[id].recv_window.window.0,
    ensures
        ({
            let r = route_of(m.routes, id)->0;
            let (n, f) = m.handles(
                FrameModel::Data { stream_id: id, data, end_stream: false },
                now,
            );
            &&& f is None
            &&& n.effects == m.effects.push(EffectModel::Buffered(data.len() as u32)).push(
                EffectModel::Deliver {
                    client: r.client,
                    event: EventModel::Data { id: r.client_id, data, end_stream: false },
                },
            )
            &&& n.output == m.output
        }),
        m.pending.len() == 0 ==> ({
            let r = route_of(m.routes, id)->0;
            let (n, f) = m.handles(
                FrameModel::Data { stream_id: id, data, end_stream: true },
                now,
            );
            &&& f is None
            &&& n.effects == m.effects.push(EffectModel::Buffered(data.len() as u32)).push(
                EffectModel::Deliver {
                    client: r.client,
                    event: EventModel::Data { id: r.client_id, data, end_stream: true },
                },
            ).push(EffectModel::StreamClosed)
            &&& n.output == m.output
        }),
{
    response_octets_are_held_for_the_client(m, id, data, false);
    response_octets_are_held_for_the_client(m, id, data, true);
}

/// A header block says the same in however many frames it comes.
pub proof fn a_header_block_may_come_in_pieces(
    m: UpModel,
    id: u32,
    first: Seq<u8>,
    rest: Seq<u8>,
    end_stream: bool,
    now: u64,
)
    requires
        m.open_block is None,
        m.header_block.len() == 0,
        first.len() + rest.len() <= MAX_HEADER_BLOCK_BYTES,
    ensures
        ({
            let (a, f) = m.handles(
                FrameModel::Headers { stream_id: id, block: first, end_stream, end_headers: false },
                now,
            );
            let whole = m.handles(
                FrameModel::Headers {
                    stream_id: id,
                    block: first + rest,
                    end_stream,
                    end_headers: true,
                },
                now,
            );
            let pieces = a.handles(
                FrameModel::Continuation { stream_id: id, block: rest, end_headers: true },
                now,
            );
            &&& f is None
            &&& a.effects == m.effects && a.output == m.output && a.routes == m.routes
            &&& pieces.1 == whole.1
            &&& pieces.1 is None ==> pieces.0.effects == whole.0.effects && pieces.0.output
                == whole.0.output && pieces.0.streams == whole.0.streams && pieces.0.routes
                == whole.0.routes && pieces.0.dec == whole.0.dec && pieces.0.open_block is None
        }),
{
    reveal(UpModel::takes_fragment);
    assert(m.header_block + (first + rest) =~= (m.header_block + first) + rest);
    let a = m.handles(
        FrameModel::Headers { stream_id: id, block: first, end_stream, end_headers: false },
        now,
    ).0;
    let (dec, r) = m.dec.decoded(m.header_block + (first + rest));
    let x = UpModel { open_end: end_stream, dec, header_block: Seq::empty(), ..m };
    let y = UpModel { dec, header_block: Seq::empty(), ..a };
    assert(y == (UpModel { open_block: Some(id), ..x }));
    if let Ok(fields) = r {
        lemma_takes_response_blind(x, Some(id), id, fields, end_stream);
    }
    lemma_fails_stream_blind(x, Some(id), id);
}

// ---- which block is open makes no difference to a step ---------------------------

spec fn opened(m: UpModel, open: Option<u32>) -> UpModel {
    UpModel { open_block: open, ..m }
}

proof fn lemma_sends_request_blind(
    m: UpModel,
    open: Option<u32>,
    request: u32,
    client_id: u32,
    client: u64,
    head: RequestModel,
    end_stream: bool,
)
    ensures
        ({
            let a = m.sends_request(request, client_id, client, head, end_stream);
            let b = opened(m, open).sends_request(request, client_id, client, head, end_stream);
            b.0 == opened(a.0, open) && b.1 == a.1
        }),
{
    reveal(UpModel::sends_request);
    reveal(UpModel::starts_request);
    reveal(UpModel::queues);
}

proof fn lemma_starts_pending_blind(m: UpModel, open: Option<u32>)
    ensures
        ({
            let a = m.starts_pending();
            let b = opened(m, open).starts_pending();
            b.0 == opened(a.0, open) && b.1 == a.1
        }),
    decreases m.pending.len(),
{
    let o = opened(m, open);
    if m.streams.live.len() < m.streams.max_concurrent && m.pending.len() > 0 {
        lemma_starts_oldest_pending(m);
        lemma_starts_oldest_pending(o);
        let p = m.pending[0];
        let a = UpModel { pending: m.pending.skip(1), ..m };
        lemma_sends_request_blind(
            a,
            open,
            p.request,
            p.client_id,
            p.client,
            p.head,
            p.end_stream,
        );
        assert(opened(a, open) == (UpModel { pending: o.pending.skip(1), ..o }));
        assert(o.starts_oldest().0 == opened(m.starts_oldest().0, open) && o.starts_oldest().1
            == m.starts_oldest().1) by {
            reveal(UpModel::starts_oldest);
        }
        if m.starts_oldest().1 is None {
            lemma_starts_pending_blind(m.starts_oldest().0, open);
        }
    }
}

proof fn lemma_forgets_blind(m: UpModel, open: Option<u32>, id: u32)
    ensures
        opened(m, open).forgets(id) == opened(m.forgets(id), open),
{
    reveal(UpModel::forgets);
    let a = m.without(id).drops_route(id);
    assert(opened(m, open).without(id).drops_route(id) == opened(a, open)) by {
        reveal(UpModel::drops_route);
        reveal(UpModel::queues);
    }
    lemma_starts_pending_blind(a, open);
}

proof fn lemma_fails_stream_blind(m: UpModel, open: Option<u32>, id: u32)
    ensures
        opened(m, open).fails_stream(id).0 == opened(m.fails_stream(id).0, open),
        opened(m, open).fails_stream(id).1 == m.fails_stream(id).1,
{
    reveal(UpModel::fails_stream);
    reveal(UpModel::queues);
    let told = m.reports_failure(id);
    assert(opened(m, open).reports_failure(id) == opened(told, open));
    let (a, f) = told.resets(id, ErrorCode::Cancel);
    assert(opened(told, open).resets(id, ErrorCode::Cancel) == (opened(a, open), f));
    lemma_forgets_blind(told, open, id);
    lemma_forgets_blind(a, open, id);
}

proof fn lemma_advances_blind(m: UpModel, open: Option<u32>, id: u32, event: StreamEvent)
    ensures
        opened(m, open).advances(id, event).0 == opened(m.advances(id, event).0, open),
        opened(m, open).advances(id, event).1 == m.advances(id, event).1,
{
    reveal(UpModel::advances);
    let (streams, r) = m.streams.applies(id, event);
    lemma_fails_stream_blind(UpModel { streams, ..m }, open, id);
    assert(UpModel { streams, ..opened(m, open) } == opened(UpModel { streams, ..m }, open));
}

proof fn lemma_advances_to_end_blind(
    m: UpModel,
    open: Option<u32>,
    id: u32,
    event: StreamEvent,
    end: bool,
)
    ensures
        opened(m, open).advances_to_end(id, event, end).0 == opened(
            m.advances_to_end(id, event, end).0,
            open,
        ),
        opened(m, open).advances_to_end(id, event, end).1 == m.advances_to_end(id, event, end).1,
{
    reveal(UpModel::advances_to_end);
    lemma_advances_blind(m, open, id, event);
    let a = m.advances(id, event).0;
    assert(opened(a, open).completes(id) == opened(a.completes(id), open)) by {
        reveal(UpModel::completes);
        reveal(UpModel::completes_route);
        lemma_starts_pending_blind(a.without(id).completes_route(id), open);
    }
}

proof fn lemma_takes_response_blind(
    m: UpModel,
    open: Option<u32>,
    id: u32,
    fields: Seq<HeaderModel>,
    end_stream: bool,
)
    ensures
        opened(m, open).takes_response(id, fields, end_stream).0 == opened(
            m.takes_response(id, fields, end_stream).0,
            open,
        ),
        opened(m, open).takes_response(id, fields, end_stream).1 == m.takes_response(
            id,
            fields,
            end_stream,
        ).1,
{
    let event = StreamEvent::RecvHeaders { end_stream };
    let o = opened(m, open);
    let i = route_at(m.routes, id) as int;
    let r = m.routes[i];
    let response = response_of(fields);
    let trailing = EventModel::Trailers { id: r.client_id, fields };
    let told = m.tells(r.client, trailing);
    let headed = UpModel {
        routes: m.routes.update(i, Route { head_sent: true, ..r }),
        ..m
    }.tells(r.client, EventModel::Head { id: r.client_id, response, end_stream });
    let noted = UpModel {
        summary: UpstreamSummary {
            responses_received: counted(headed.summary.responses_received, 1),
            ..headed.summary
        },
        ..headed
    };
    lemma_fails_stream_blind(m, open, id);
    lemma_advances_blind(m, open, id, StreamEvent::RecvHeaders { end_stream: false });
    lemma_advances_to_end_blind(told, open, id, event, end_stream);
    lemma_advances_to_end_blind(noted, open, id, event, end_stream);
    assert(o.tells(r.client, trailing) == opened(told, open));
    reveal(UpModel::takes_response);
    let known = m.streams.live.contains_key(id) || m.streams.seen(id);
    if known && i < m.routes.len() {
        if r.head_sent {
        } else if !is_response(fields) {
        } else if 100 <= response.status < 200 {
        } else {
            assert(m.takes_response(id, fields, end_stream) == noted.advances_to_end(
                id,
                event,
                end_stream,
            ));
            assert(o.takes_response(id, fields, end_stream) == opened(noted, open).advances_to_end(
                id,
                event,
                end_stream,
            ));
        }
    }
}

// ---- what clients ask for -------------------------------------------------------

/// A request reaches the backend as it is: its HEADERS goes out under the next
/// id, a decoder in step reads the very request out of it, and its client is
/// remembered.
pub proof fn a_request_goes_out_as_it_is(
    m: UpModel,
    d: DecoderModel,
    request: u32,
    client_id: u32,
    client: u64,
    head: RequestModel,
    end_stream: bool,
)
    requires
        !m.cancelled.contains(request),
        m.draining is None,
        m.streams.live.len() < m.streams.max_concurrent,
        low31(m.next_stream_id) % 2 == 1,
        low31(m.next_stream_id) > m.streams.highest_local,
        in_step(m.enc, d),
        m.enc.table.wf(),
        m.enc.table.max_size <= u32::MAX,
        head.path.len() > 0,
        no_pseudo(head.fields),
        forall|i: int| 0 <= i < head.fields.len() ==> request_field(#[trigger] head.fields[i]),
        lengths_fit(request_headers(head), m.enc.huffman),
        d.limit is None || list_cost(request_headers(head)) <= d.limit->0,
        m.hears(
            MessageModel::Request { id: request, client_id, client, head, end_stream },
        ).1 is None,
    ensures
        ({
            let n = m.hears(
                MessageModel::Request { id: request, client_id, client, head, end_stream },
            ).0;
            let id = low31(m.next_stream_id);
            &&& exists|block: Seq<u8>| #[trigger]
                headers_went(m.output, n.output, id, block, end_stream) && (d.decoded(
                    block,
                ).1 matches Ok(fields) && is_request(fields) && request_of(fields) == head)
            &&& n.routes == m.routes.push(
                Route {
                    stream: id,
                    client_id,
                    client,
                    request,
                    head_sent: false,
                    pending_conn_release: 0,
                },
            )
            &&& n.requests == m.requests.insert(request, id)
            &&& n.effects == m.effects.push(EffectModel::StreamOpened)
            &&& n.streams.live.contains_key(id)
            &&& n.streams.live[id].send_window.0 == m.streams.initial_send_window
            &&& n.next_stream_id > m.next_stream_id || m.next_stream_id > u32::MAX - 2
        }),
{
    reveal(UpModel::sends_request);
    reveal(UpModel::starts_request);
    reveal(UpModel::queues);
    requests_round_trip(head);
    encode_then_decode_is_identity(m.enc, d, request_headers(head));
    let id = low31(m.next_stream_id);
    let block = m.enc.encoded(request_headers(head)).1;
    let n = m.hears(
        MessageModel::Request { id: request, client_id, client, head, end_stream },
    ).0;
    assert(headers_went(m.output, n.output, id, block, end_stream));
}

/// The octets that wait behind a request are in the order they came.
pub proof fn lemma_queue_with(queue: Seq<Seq<u8>>, body: Seq<(Seq<u8>, bool)>)
    ensures
        queue_with(queue, body).flatten() == queue.flatten() + body.map_values(
            |p: (Seq<u8>, bool)| p.0,
        ).flatten(),
    decreases body.len(),
{
    let f = |p: (Seq<u8>, bool)| p.0;
    if body.len() == 0 {
        assert(body.map_values(f) =~= Seq::empty());
        assert(queue.flatten() + Seq::<Seq<u8>>::empty().flatten() =~= queue.flatten());
    } else {
        let init = body.drop_last();
        lemma_queue_with(queue, init);
        let q = queue_with(queue, init);
        let data = body.last().0;
        assert(body.map_values(f) =~= init.map_values(f).push(data));
        init.map_values(f).lemma_flatten_push(data);
        q.lemma_flatten_push(data);
        let whole = queue.flatten() + init.map_values(f).flatten();
        assert(whole + data =~= queue.flatten() + (init.map_values(f).flatten() + data));
        assert(data.len() == 0 ==> whole + data =~= whole);
    }
}

/// Body octets are queued behind what is queued, in order, and the stream is in
/// line to send them; the end comes with the piece that has it. While a request
/// waits, they wait behind it, and no other request gets them.
pub proof fn a_body_is_queued_in_order(m: UpModel, request: u32, data: Seq<u8>, end_stream: bool)
    ensures
        ({
            let (n, f) = m.hears(MessageModel::Body { id: request, data, end_stream });
            let id = m.requests[request];
            &&& f is None
            &&& n.output == m.output && n.effects == m.effects && n.routes == m.routes
            &&& m.requests.contains_key(request) && m.streams.live.contains_key(id) ==> {
                let s = m.streams.live[id];
                let t = n.streams.live[id];
                &&& n.streams.live.contains_key(id)
                &&& t.send_queue.flatten() == s.send_queue.flatten() + data
                &&& t.send_end_stream == (s.send_end_stream || end_stream)
                &&& t.pending_trailers == s.pending_trailers
                &&& t.send_window == s.send_window
                &&& data.len() > 0 || end_stream ==> t.queued && (s.queued || n.ready
                    == m.ready.push(id))
                &&& n.pending == m.pending
                &&& n.streams == m.streams.with(id, t)
            }
            &&& !m.requests.contains_key(request) && waiting_at(m.pending, request)
                < m.pending.len() ==> {
                let i = waiting_at(m.pending, request) as int;
                &&& m.pending[i].request == request
                &&& n.pending == m.pending.update(
                    i,
                    PendingModel {
                        body: m.pending[i].body.push((data, end_stream)),
                        ..m.pending[i]
                    },
                )
                &&& n.streams == m.streams
            }
        }),
{
    reveal(UpModel::takes_body);
    let id = m.requests[request];
    if m.requests.contains_key(request) {
        if m.streams.live.contains_key(id) {
            let body = seq![(data, end_stream)];
            let s = m.streams.live[id];
            lemma_queue_with(s.send_queue, body);
            assert(body.map_values(|p: (Seq<u8>, bool)| p.0) =~= seq![data]);
            assert(seq![data].flatten() =~= data) by {
                seq![data].lemma_flatten_one_element();
            }
            assert(body[0].1 == end_stream);
            let n = m.hears(MessageModel::Body { id: request, data, end_stream }).0;
            let t = n.streams.live[id];
            if data.len() > 0 {
                assert(t.send_queue.len() > 0) by {
                    if t.send_queue.len() == 0 {
                        assert(t.send_queue.flatten().len() == 0);
                    }
                }
            }
            assert(n.streams =~= m.streams.with(id, t));
        }
    } else if waiting_at(m.pending, request) < m.pending.len() {
        lemma_waiting(m.pending, request);
    }
}

proof fn lemma_waiting(pending: Seq<PendingModel>, request: u32)
    requires
        waiting_at(pending, request) < pending.len(),
    ensures
        pending[waiting_at(pending, request) as int].request == request,
    decreases pending.len(),
{
    if waiting_at(pending.drop_last(), request) < pending.len() - 1 {
        lemma_waiting(pending.drop_last(), request);
    }
}

/// A trailer section is kept as it came and ends the request behind all that is
/// queued.
pub proof fn trailers_wait_behind_the_body(m: UpModel, request: u32, fields: Seq<HeaderModel>)
    ensures
        ({
            let (n, f) = m.hears(MessageModel::Trailers { id: request, fields });
            let id = m.requests[request];
            &&& f is None
            &&& n.output == m.output && n.effects == m.effects && n.routes == m.routes
            &&& m.requests.contains_key(request) && m.streams.live.contains_key(id) ==> {
                let s = m.streams.live[id];
                let t = n.streams.live[id];
                &&& t == (StreamModel {
                    pending_trailers: Some(fields),
                    send_end_stream: true,
                    queued: true,
                    ..s
                })
                &&& s.queued || n.ready == m.ready.push(id)
            }
            &&& !m.requests.contains_key(request) && waiting_at(m.pending, request)
                < m.pending.len() ==> n.pending == m.pending.update(
                waiting_at(m.pending, request) as int,
                PendingModel {
                    trailers: Some(fields),
                    ..m.pending[waiting_at(m.pending, request) as int]
                },
            )
        }),
{
    reveal(UpModel::takes_request_trailers);
}

/// A request that waited takes what came for it along: its body in the order it
/// came, its end, and its trailers.
pub proof fn what_waited_goes_along(
    m: UpModel,
    id: u32,
    body: Seq<(Seq<u8>, bool)>,
    trailers: Option<Seq<HeaderModel>>,
)
    requires
        m.streams.live.contains_key(id),
    ensures
        ({
            let s = m.streams.live[id];
            let t = m.loads(id, body, trailers).streams.live[id];
            &&& t.send_queue.flatten() == s.send_queue.flatten() + body.map_values(
                |p: (Seq<u8>, bool)| p.0,
            ).flatten()
            &&& t.send_end_stream <==> s.send_end_stream || trailers is Some || exists|i: int|
                0 <= i < body.len() && (#[trigger] body[i]).1
            &&& trailers is Some ==> t.pending_trailers == trailers
        }),
{
    lemma_queue_with(m.streams.live[id].send_queue, body);
}

/// A request that its client gave up is reset with the code the client gave, and
/// nothing else is asked of the backend for it.
pub proof fn a_cancelled_request_is_reset(m: UpModel, request: u32, code: ErrorCode)
    requires
        m.requests.contains_key(request),
        m.streams.live.contains_key(m.requests[request]),
        m.hears(MessageModel::Cancel { id: request, code }).1 is None,
        m.pending.len() == 0,
    ensures
        ({
            let n = m.hears(MessageModel::Cancel { id: request, code }).0;
            let id = m.requests[request];
            let reset = m.output + encoded(
                FrameModel::RstStream { stream_id: id, error_code: code },
            )->Ok_0;
            &&& n.output.len() >= reset.len()
            &&& n.output.take(reset.len() as int) == reset
            &&& !n.streams.live.contains_key(id)
            &&& route_of(m.routes, id) is None || route_of(m.routes, id)->0.pending_conn_release
                == 0 ==> n.output == reset
        }),
{
    reveal(UpModel::cancels);
    reveal(UpModel::forgets);
    reveal(UpModel::drops_route);
    reveal(UpModel::queues);
    let n = m.hears(MessageModel::Cancel { id: request, code }).0;
    let reset = m.output + encoded(
        FrameModel::RstStream { stream_id: m.requests[request], error_code: code },
    )->Ok_0;
    assert(n.output.take(reset.len() as int) =~= reset);
}

// ---- what a visit sends -----------------------------------------------------------

/// Trailers go out behind the body and end the request: where a visit leaves
/// nothing of it queued, their field section follows the last DATA, which does
/// not end the stream itself, and a decoder in step reads them out of it.
pub proof fn trailers_go_out_behind_the_body(
    m: UpModel,
    d: DecoderModel,
    id: u32,
    fields: Seq<HeaderModel>,
)
    requires
        m.streams.live.contains_key(id),
        m.streams.live[id].state.local_open(),
        m.streams.live[id].pending_trailers == Some(fields),
        m.streams.live[id].send_queue.len() == 0,
        in_step(m.enc, d),
        m.enc.table.wf(),
        m.enc.table.max_size <= u32::MAX,
        lengths_fit(fields, m.enc.huffman),
        d.limit is None || list_cost(fields) <= d.limit->0,
        m.visits(id).1 is Ok,
    ensures
        ({
            let n = m.visits(id).0;
            &&& exists|block: Seq<u8>| #[trigger]
                headers_went(m.output, n.output, id, block, true) && d.decoded(block).1 == Ok::<
                    Seq<HeaderModel>,
                    HpackFault,
                >(fields)
            &&& n.send_window == m.send_window
            &&& n.streams.live.contains_key(id) ==> !n.streams.live[id].state.local_open()
                && n.streams.live[id].pending_trailers is None
        }),
{
    reveal(UpModel::visits);
    reveal(UpModel::sends_chunk);
    reveal(UpModel::advances);
    reveal(UpModel::queues);
    encode_then_decode_is_identity(m.enc, d, fields);
    let block = m.enc.encoded(fields).1;
    let n = m.visits(id).0;
    assert(total_len(m.streams.live[id].send_queue) == 0);
    assert(headers_went(m.output, n.output, id, block, true));
}

/// A visit that sends gives its client that much credit back: the octets of the
/// one DATA frame it queues, which is the front of what was queued, and ends the
/// request where nothing is left behind it.
pub proof fn a_visit_credits_the_client_for_what_it_sends(m: UpModel, id: u32)
    requires
        m.streams.live.contains_key(id),
        m.streams.live[id].state.local_open(),
        m.streams.live[id].pending_trailers is None,
        m.visits(id).1 matches Ok(Some(_)),
    ensures
        ({
            let (n, _) = m.visits(id);
            let s = m.streams.live[id];
            let queued = s.send_queue.flatten();
            let sent = m.send_window.0 - n.send_window.0;
            &&& 0 <= sent <= queued.len()
            &&& n.output == m.output || exists|last: bool| #[trigger]
                data_went(m.output, n.output, id, queued.take(sent), last) && (last
                    ==> s.send_end_stream && sent == queued.len()) && (s.send_end_stream
                    && n.streams.live.contains_key(id) && n.streams.live[id].send_queue.len() == 0
                    ==> last)
            &&& sent > 0 ==> n.output != m.output
            &&& sent > 0 && route_of(m.routes, id) is Some ==> n.effects == m.effects.push(
                EffectModel::Deliver {
                    client: route_of(m.routes, id)->0.client,
                    event: EventModel::BodyAccepted {
                        id: route_of(m.routes, id)->0.client_id,
                        n: sent as u32,
                    },
                },
            )
            &&& sent == 0 ==> n.effects == m.effects
        }),
{
    reveal(UpModel::visits);
    reveal(UpModel::sends_chunk);
    reveal(UpModel::advances);
    reveal(UpModel::queues);
    let s = m.streams.live[id];
    let most = visit_budget(s.send_window, m.send_window, m.peer.max_frame_size);
    lemma_taken_len(s.send_queue, most);
    sending_preserves_the_octets(s.send_queue, most);
    let (chunk, rest) = taken_front(s.send_queue, most);
    let n = m.visits(id).0;
    let queued = s.send_queue.flatten();
    let last = rest.len() == 0 && s.send_end_stream;
    assert((chunk + rest.flatten()).take(chunk.len() as int) =~= chunk);
    assert(queued.take(0) =~= Seq::<u8>::empty());
    if chunk.len() > 0 || last {
        let f = FrameModel::Data { stream_id: id, data: chunk, end_stream: last };
        assert(encoded(f) is Ok);
        assert(data_went(m.output, n.output, id, queued.take(chunk.len() as int), last));
        assert(n.output.len() == m.output.len() + encoded(f)->Ok_0.len());
        assert(encoded(f)->Ok_0.len() >= 9);
    }
}

/// One DATA frame went out in between.
pub open spec fn data_went(
    before: Seq<u8>,
    after: Seq<u8>,
    id: u32,
    data: Seq<u8>,
    end_stream: bool,
) -> bool {
    after == before + encoded(FrameModel::Data { stream_id: id, data, end_stream })->Ok_0
}

// ---- the connection as a whole ------------------------------------------------------

/// The connection opens with the preface, our settings, and the credit that lifts
/// the default window to ours where ours is larger.
pub proof fn the_opening_says_our_settings(m: UpModel)
    ensures
        ({
            let (n, f) = m.starts();
            &&& f is None
            &&& n.output == m.output + encode_utf8(PREFACE@) + encoded(
                FrameModel::Settings { ack: false, params: advertised(m.local) },
            )->Ok_0 + (if m.conn_window > 65_535 {
                encoded(
                    FrameModel::WindowUpdate {
                        stream_id: 0,
                        increment: (m.conn_window - 65_535) as u32,
                    },
                )->Ok_0
            } else {
                Seq::empty()
            })
            &&& n == (UpModel { output: n.output, ..m })
        }),
{
    reveal(UpModel::queues);
    crate::frame::lemma_param_octets(advertised(m.local));
    let n = m.starts().0;
    assert(n.output + Seq::<u8>::empty() =~= n.output);
}

/// A connection that fails says why, and up to which stream it got.
pub proof fn a_failing_connection_says_why(m: UpModel, f: Fault)
    requires
        encode_utf8(f.debug).len() + 8 <= 16_777_215,
    ensures
        m.fails(f).output == m.output + encoded(
            FrameModel::GoAway {
                last_stream_id: m.streams.highest_local,
                error_code: f.code,
                debug_data: encode_utf8(f.debug),
            },
        )->Ok_0,
{
    reveal(UpModel::queues);
}

/// Credit that is given back is announced: where a window grows, exactly that
/// much is told to the backend, for that stream or for the connection, and where
/// none grows nothing is said.
pub proof fn returned_credit_is_announced(m: UpModel, id: u32, len: u32)
    requires
        m.recv_window.window.0 + m.recv_window.unreleased + len <= 0x7fff_ffff,
        m.streams.live.contains_key(id),
        m.streams.live[id].recv_window.window.0 + m.streams.live[id].recv_window.unreleased + len
            <= 0x7fff_ffff,
        len > 0,
    ensures
        ({
            let (n, f) = m.releases_conn(len);
            let grown = n.recv_window.window.0 - m.recv_window.window.0;
            &&& f is None && grown >= 0
            &&& n.output == (if grown > 0 {
                m.output + encoded(
                    FrameModel::WindowUpdate { stream_id: 0, increment: grown as u32 },
                )->Ok_0
            } else {
                m.output
            })
        }),
        ({
            let (n, f) = m.releases_stream(id, len);
            let grown = n.streams.live[id].recv_window.window.0
                - m.streams.live[id].recv_window.window.0;
            &&& f is None && grown >= 0 && n.streams.live.contains_key(id)
            &&& n.output == (if grown > 0 {
                m.output + encoded(
                    FrameModel::WindowUpdate { stream_id: id, increment: grown as u32 },
                )->Ok_0
            } else {
                m.output
            })
        }),
{
    reveal(UpModel::queues);
}

/// Every stream in the ring waits for credit, its own or the connection's, unless
/// the backend takes no octet in a frame at all.
pub open spec fn all_without_credit(m: UpModel) -> bool {
    forall|i: int|
        0 <= i < m.ready.len() ==> {
            let id = #[trigger] m.ready[i];
            m.streams.live.contains_key(id) && (m.send_window.0 <= 0
                || m.streams.live[id].send_window.0 <= 0 || m.peer.max_frame_size == 0)
        }
}

/// Nothing that could go is left: after a pump the write queue is full, or every
/// stream in the ring waits for credit, its own or the connection's.
pub proof fn a_pump_leaves_only_what_has_no_credit(m: UpModel)
    requires
        m.streams.live.dom().finite(),
        m.pumps().1 is None,
    ensures
        m.pumps().0.output.len() >= MAX_WRITE_QUEUE || all_without_credit(m.pumps().0),
    decreases m.pending.len(), m.work_left(), m.ready.len(),
{
    lemma_laps_progress(m);
    if m.ready.len() > 0 && m.output.len() < MAX_WRITE_QUEUE {
        let start = UpModel { ready: Seq::empty(), ..m };
        let l = up_lap(start, m.ready);
        if m.laps().fault is None {
            if m.laps().wrote {
                a_pump_leaves_only_what_has_no_credit(m.laps().conn);
            } else {
                lemma_idle_lap(start, m.ready);
                let ring = l.stalled + l.served + l.conn.ready;
                let n = m.laps().conn;
                assert forall|i: int| 0 <= i < n.ready.len() implies {
                    let id = #[trigger] n.ready[i];
                    n.streams.live.contains_key(id) && (n.send_window.0 <= 0
                        || n.streams.live[id].send_window.0 <= 0 || n.peer.max_frame_size == 0)
                } by {
                    let id = n.ready[i];
                    rebuilding_the_ring_keeps_the_living(l.conn.streams, ring, id);
                    let alive = |k: u32| l.conn.streams.live.contains_key(k);
                    assert(ring.filter(alive).contains(id));
                    ring.lemma_filter_contains_rev(alive, id);
                    ring.filter_lemma(alive);
                    let k = ring.index_of(id);
                    assert(l.stalled[k] == id);
                }
            }
        }
    }
}

proof fn lemma_idle_visit(m: UpModel, id: u32)
    requires
        m.visits(id).1 == Ok::<Option<bool>, Fault>(None),
    ensures
        ({
            let n = m.visits(id).0;
            &&& n.send_window == m.send_window && n.peer == m.peer
            &&& n.ready == m.ready
            &&& n.streams.live.dom() == m.streams.live.dom()
            &&& forall|k: u32|
                m.streams.live.contains_key(k) ==> (#[trigger] n.streams.live[k]).send_window
                    == m.streams.live[k].send_window
            &&& m.streams.live.contains_key(id)
            &&& m.send_window.0 <= 0 || m.streams.live[id].send_window.0 <= 0
                || m.peer.max_frame_size == 0
        }),
{
    reveal(UpModel::visits);
    reveal(UpModel::sends_chunk);
    if m.streams.live.contains_key(id) {
        assert(m.visits(id).0.streams.live.dom() =~= m.streams.live.dom());
    }
}

proof fn lemma_idle_lap(m: UpModel, ids: Seq<u32>)
    requires
        m.ready.len() == 0,
        up_lap(m, ids).fault is None,
        !up_lap(m, ids).wrote,
    ensures
        ({
            let l = up_lap(m, ids);
            &&& l.served.len() == 0
            &&& l.conn.ready == m.ready
            &&& l.conn.send_window == m.send_window && l.conn.peer == m.peer
            &&& l.conn.streams.live.dom() == m.streams.live.dom()
            &&& forall|k: u32|
                m.streams.live.contains_key(k) ==> (#[trigger] l.conn.streams.live[k]).send_window
                    == m.streams.live[k].send_window
            &&& forall|i: int|
                0 <= i < l.stalled.len() ==> {
                    let id = #[trigger] l.stalled[i];
                    m.streams.live.contains_key(id) && (m.send_window.0 <= 0
                        || m.streams.live[id].send_window.0 <= 0 || m.peer.max_frame_size == 0)
                }
        }),
    decreases ids.len(),
{
    if ids.len() > 0 {
        let before = up_lap(m, ids.drop_last());
        lemma_idle_lap(m, ids.drop_last());
        lemma_idle_visit(before.conn, ids.last());
        let l = up_lap(m, ids);
        assert forall|k: u32| m.streams.live.contains_key(k) implies (
        #[trigger] l.conn.streams.live[k]).send_window == m.streams.live[k].send_window by {
            assert(before.conn.streams.live.dom().contains(k));
            assert(before.conn.streams.live[k].send_window == m.streams.live[k].send_window);
        }
        assert forall|i: int| 0 <= i < l.stalled.len() implies {
            let id = #[trigger] l.stalled[i];
            m.streams.live.contains_key(id) && (m.send_window.0 <= 0
                || m.streams.live[id].send_window.0 <= 0 || m.peer.max_frame_size == 0)
        } by {
            if i < before.stalled.len() {
                assert(before.stalled[i] == l.stalled[i]);
            } else {
                let id = ids.last();
                assert(before.conn.streams.live.dom().contains(id));
                assert(before.conn.streams.live[id].send_window
                    == m.streams.live[id].send_window);
            }
        }
    }
}

/// A request that stops waiting leaves the others as they wait, in order.
pub proof fn the_others_go_on_waiting(pending: Seq<PendingModel>, request: u32)
    ensures
        waiting_without(pending, request) == pending.filter(
            |p: PendingModel| p.request != request,
        ),
    decreases pending.len(),
{
    reveal(Seq::filter);
    if pending.len() > 0 {
        the_others_go_on_waiting(pending.drop_last(), request);
    }
}

/// A connection that drains goes on until its last stream is over or its time is
/// up, and not beyond; one that does not drain goes on.
pub proof fn a_drain_lasts_until_its_last_stream(m: UpModel, now: u64)
    requires
        m.turns(now).1 is Ok,
    ensures
        ({
            let (n, r) = m.turns(now);
            &&& n.draining is None ==> r->Ok_0
            &&& n.draining matches Some((_, deadline)) ==> r->Ok_0 == (n.routes.len() > 0 && now
                < deadline)
        }),
{
}

/// A probe that is due goes out as a PING with its payload and is reported; one
/// that nobody answered in time retires the connection and ends it, without a
/// word to the backend.
pub proof fn a_probe_goes_out_or_gives_up(m: UpModel, now: u64)
    requires
        m.probe.after_due(now).1 matches ActionModel::Send(nonce) ==> nonce.len() == 8,
    ensures
        ({
            let (n, r) = m.probes(now);
            match m.probe.after_due(now).1 {
                ActionModel::Nothing => r == Ok::<bool, Fault>(true) && n.output == m.output
                    && n.effects == m.effects,
                ActionModel::Send(nonce) => r == Ok::<bool, Fault>(true) && n.output == m.output
                    + encoded(FrameModel::Ping { data: nonce, ack: false })->Ok_0 && n.effects
                    == m.effects.push(EffectModel::ProbeSent),
                ActionModel::Expired => r == Ok::<bool, Fault>(false) && n.output == m.output
                    && n.effects == m.effects.push(EffectModel::Retire),
            }
        }),
        m.probes(now).0.streams == m.streams,
        m.probes(now).0.routes == m.routes,
        m.probes(now).0.send_window == m.send_window,
{
    reveal(UpModel::probes);
    reveal(UpModel::queues);
}

} // verus!
