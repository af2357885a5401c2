//! What an upstream connection puts on the wire, counted off the octets
//! themselves.
//!
//! A pump can do more than write DATA: a stream that fails under it is reset, its
//! credit goes back, and a waiting request may take its slot and join the ring.
//! None of that is sent on credit, and none of it makes any.

use crate::conn::engine::lemma_taken_len;
use crate::conn::laws::extends;
use crate::conn::wire::{
    bodied, body_octets, carried, data_octets, follows, lemma_bodies_add_up, lemma_follows_chains,
    lemma_marked_windows, lemma_octets_add_up, lemma_one_body, lemma_one_frame, paid, queue_of,
    whole,
};
use crate::conn::{ErrorCode, Tuning};
use crate::flow::Window;
use crate::frame::{encoded, taken, DecodedModel, FrameModel, MAX_ALLOWED_FRAME_SIZE};
use crate::hpack::HeaderModel;
use crate::sched::{lemma_marked_dom, sending_preserves_the_octets, taken_front, visit_budget};
use crate::service::{request_headers, EventModel, RequestModel};
use crate::stream::{low31, total_len, StreamEvent, StreamModel};
use crate::upstream::laws::{
    known, lemma_handles_untouched, lemma_sends_request_untouched, nothing_is_held_for_a_client_that_left,
};
use crate::upstream::model::{
    lemma_laps_progress, lemma_starts_oldest_pending, route_at, route_of, up_lap, EffectModel,
    MessageModel, Route, UpModel, MAX_WRITE_QUEUE,
};
use crate::upstream::WakeModel;
use vstd::prelude::*;

verus! {

impl UpModel {
    /// What the backend lets us send on a stream: the rest of its window; what a
    /// stream starts with where it is yet to be opened; and nothing where it is
    /// over.
    pub open spec fn credit(self, id: u32) -> nat {
        if self.streams.live.contains_key(id) {
            self.streams.live[id].send_window.spendable()
        } else if id <= self.streams.highest_local {
            0
        } else {
            Window(self.streams.initial_send_window).spendable()
        }
    }
}

/// What `b` has queued for the backend that `a` had not.
pub open spec fn sent(a: UpModel, b: UpModel) -> Seq<u8> {
    b.output.skip(a.output.len() as int)
}

/// What a stream sent from `a` to `b` came off its credit.
pub open spec fn stream_metered(a: UpModel, b: UpModel, id: u32) -> bool {
    data_octets(sent(a, b), Some(id)) + b.credit(id) <= a.credit(id)
}

/// The requests that wait are different requests, and none of them has a stream
/// yet.
pub open spec fn waiting_apart(m: UpModel) -> bool {
    &&& forall|i: int|
        0 <= i < m.pending.len() ==> !m.requests.contains_key((#[trigger] m.pending[i]).request)
    &&& forall|i: int, j: int|
        0 <= i < j < m.pending.len() ==> (#[trigger] m.pending[i]).request != (
        #[trigger] m.pending[j]).request
}

/// What went out for a stream from `a` to `b` came off the front of its queue,
/// and nothing goes out for a stream that is over.
pub open spec fn body_kept(a: UpModel, b: UpModel, id: u32) -> bool {
    let went = body_octets(sent(a, b), id);
    if a.streams.live.contains_key(id) {
        follows(a.streams.live[id].send_queue, went, queue_of(b.streams, id))
    } else {
        id <= a.streams.highest_local ==> went.len() == 0 && !b.streams.live.contains_key(id)
    }
}

/// All that was sent from `a` to `b` was paid for, at both levels, and every body
/// went out as it was queued.
pub open spec fn metered(a: UpModel, b: UpModel, apart: bool) -> bool {
    &&& extends(a.output, b.output)
    &&& whole(sent(a, b))
    &&& paid(a.send_window, b.send_window, data_octets(sent(a, b), None))
    &&& known(a.streams)
    &&& known(b.streams)
    &&& a.streams.highest_local <= b.streams.highest_local
    &&& forall|id: u32| #[trigger] stream_metered(a, b, id)
    &&& apart ==> waiting_apart(a) && waiting_apart(b) && forall|id: u32| #[trigger]
        body_kept(a, b, id)
}

/// A step that sends nothing leaves what is queued, and revives no stream.
pub open spec fn queues_kept(a: UpModel, b: UpModel) -> bool {
    &&& a.streams.highest_local <= b.streams.highest_local
    &&& forall|id: u32|
        #![trigger b.streams.live.contains_key(id)]
        b.streams.live.contains_key(id) ==> if a.streams.live.contains_key(id) {
            b.streams.live[id].send_queue.flatten() == a.streams.live[id].send_queue.flatten()
        } else {
            id > a.streams.highest_local
        }
}

proof fn lemma_metered_chains(a: UpModel, b: UpModel, c: UpModel, apart: bool)
    requires
        metered(a, b, apart),
        metered(b, c, apart),
    ensures
        metered(a, c, apart),
{
    assert(c.output.take(a.output.len() as int) =~= b.output.take(a.output.len() as int));
    assert(sent(a, c) =~= sent(a, b) + sent(b, c)) by {
        assert(c.output.take(b.output.len() as int) == b.output);
        assert forall|i: int| 0 <= i < sent(a, b).len() implies sent(a, c)[i] == sent(a, b)[i] by {
            assert(c.output.take(b.output.len() as int)[a.output.len() + i] == b.output[
                a.output.len() + i]);
        }
    }
    lemma_octets_add_up(sent(a, b), sent(b, c), None);
    assert forall|id: u32| #[trigger] stream_metered(a, c, id) by {
        assert(stream_metered(a, b, id));
        assert(stream_metered(b, c, id));
        lemma_octets_add_up(sent(a, b), sent(b, c), Some(id));
    }
    if apart {
        assert forall|id: u32| #[trigger] body_kept(a, c, id) by {
            assert(body_kept(a, b, id));
            assert(body_kept(b, c, id));
            lemma_bodies_add_up(sent(a, b), sent(b, c), id);
            let x = body_octets(sent(a, b), id);
            let y = body_octets(sent(b, c), id);
            if a.streams.live.contains_key(id) {
                if b.streams.live.contains_key(id) {
                    lemma_follows_chains(
                        a.streams.live[id].send_queue,
                        x,
                        b.streams.live[id].send_queue,
                        y,
                        queue_of(c.streams, id),
                    );
                } else {
                    assert(x + y =~= x);
                }
            }
        }
    }
}

/// Where nothing went out, all of a queue is left.
proof fn lemma_nothing_went(a: UpModel, b: UpModel, id: u32)
    requires
        queues_kept(a, b),
    ensures
        body_octets(Seq::empty(), id) == Seq::<u8>::empty(),
        a.streams.live.contains_key(id) ==> follows(
            a.streams.live[id].send_queue,
            Seq::empty(),
            queue_of(b.streams, id),
        ),
        !a.streams.live.contains_key(id) && id <= a.streams.highest_local
            ==> !b.streams.live.contains_key(id),
{
    assert(body_octets(Seq::empty(), id) =~= Seq::<u8>::empty());
    if a.streams.live.contains_key(id) {
        let all = a.streams.live[id].send_queue.flatten();
        assert(Seq::<u8>::empty() + all =~= all);
        assert(all.take(0) =~= Seq::<u8>::empty());
    }
}

/// A step that queues nothing and gives nobody credit.
proof fn lemma_quiet_step(a: UpModel, b: UpModel, apart: bool)
    requires
        b.output == a.output,
        paid(a.send_window, b.send_window, 0),
        known(a.streams),
        known(b.streams),
        apart ==> waiting_apart(a) && waiting_apart(b),
        queues_kept(a, b),
        forall|id: u32| #[trigger] b.credit(id) <= a.credit(id),
    ensures
        metered(a, b, apart),
{
    assert(b.output.take(a.output.len() as int) =~= a.output);
    assert(sent(a, b) =~= Seq::empty());
    assert(whole(Seq::<u8>::empty()));
    assert(data_octets(Seq::empty(), None) == 0);
    assert forall|id: u32| #[trigger] stream_metered(a, b, id) by {
        assert(data_octets(Seq::empty(), Some(id)) == 0);
        assert(b.credit(id) <= a.credit(id));
    }
    assert forall|id: u32| #[trigger] body_kept(a, b, id) by {
        lemma_nothing_went(a, b, id);
    }
}

/// A step that queues one frame, and spends what it carries.
proof fn lemma_frame_step(a: UpModel, b: UpModel, f: FrameModel, apart: bool)
    requires
        encoded(f) is Ok,
        f.stream() < 0x8000_0000,
        b.output == a.output + encoded(f)->Ok_0,
        paid(a.send_window, b.send_window, carried(f, None)),
        known(a.streams),
        known(b.streams),
        a.streams.highest_local <= b.streams.highest_local,
        apart ==> waiting_apart(a) && waiting_apart(b),
        forall|id: u32| carried(f, Some(id)) + #[trigger] b.credit(id) <= a.credit(id),
        forall|id: u32|
            #![trigger queue_of(b.streams, id)]
            if a.streams.live.contains_key(id) {
                follows(a.streams.live[id].send_queue, bodied(f, id), queue_of(b.streams, id))
            } else {
                id <= a.streams.highest_local ==> bodied(f, id).len() == 0
                    && !b.streams.live.contains_key(id)
            },
    ensures
        metered(a, b, apart),
{
    assert(b.output.take(a.output.len() as int) =~= a.output);
    assert(sent(a, b) =~= encoded(f)->Ok_0);
    lemma_one_frame(f, None);
    assert forall|id: u32| #[trigger] stream_metered(a, b, id) by {
        lemma_one_frame(f, Some(id));
        assert(carried(f, Some(id)) + b.credit(id) <= a.credit(id));
    }
    assert forall|id: u32| #[trigger] body_kept(a, b, id) by {
        lemma_one_body(f, id);
        let left = queue_of(b.streams, id);
    }
}

/// A frame that is not DATA costs no credit.
proof fn lemma_queues_metered(m: UpModel, f: FrameModel, apart: bool)
    requires
        known(m.streams),
        apart ==> waiting_apart(m),
        !(f is Data),
        f.stream() < 0x8000_0000,
    ensures
        metered(m, m.queues(f).0, apart),
        m.queues(f).0.streams == m.streams,
{
    reveal(UpModel::queues);
    let n = m.queues(f).0;
    assert forall|id: u32| #[trigger] n.credit(id) <= m.credit(id) by {}
    if encoded(f) is Ok {
        assert forall|id: u32|
            #![trigger queue_of(n.streams, id)]
            if m.streams.live.contains_key(id) {
                follows(m.streams.live[id].send_queue, bodied(f, id), queue_of(n.streams, id))
            } else {
                id <= m.streams.highest_local ==> bodied(f, id).len() == 0
                    && !n.streams.live.contains_key(id)
            } by {
            lemma_nothing_went(m, n, id);
        }
        lemma_frame_step(m, n, f, apart);
    } else {
        lemma_quiet_step(m, n, apart);
    }
}

/// A stream that leaves takes its credit with it.
proof fn lemma_without_metered(m: UpModel, id: u32, apart: bool)
    requires
        known(m.streams),
        apart ==> waiting_apart(m),
    ensures
        metered(m, m.without(id), apart),
{
    let n = m.without(id);
    assert forall|k: u32| #[trigger] n.credit(k) <= m.credit(k) by {}
    lemma_quiet_step(m, n, apart);
}

proof fn lemma_releases_conn_metered(m: UpModel, n: u32, apart: bool)
    requires
        known(m.streams),
        apart ==> waiting_apart(m),
    ensures
        metered(m, m.releases_conn(n).0, apart),
{
    let (recv_window, due) = m.recv_window.released(n);
    let a = UpModel { recv_window, ..m };
    assert forall|k: u32| #[trigger] a.credit(k) <= m.credit(k) by {}
    lemma_quiet_step(m, a, apart);
    if let Some(increment) = due {
        let f = FrameModel::WindowUpdate { stream_id: 0, increment };
        lemma_queues_metered(a, f, apart);
        lemma_metered_chains(m, a, a.queues(f).0, apart);
    }
}

proof fn lemma_drops_route_metered(m: UpModel, id: u32, apart: bool)
    requires
        known(m.streams),
        apart ==> waiting_apart(m),
    ensures
        metered(m, m.drops_route(id), apart),
{
    reveal(UpModel::drops_route);
    let i = route_at(m.routes, id) as int;
    let n = m.drops_route(id);
    if i < m.routes.len() && m.routes[i].pending_conn_release > 0 {
        let r = m.routes[i];
        let a = UpModel {
            routes: m.routes.remove(i),
            requests: m.requests.remove(r.request),
            ..m
        }.emits(EffectModel::StreamClosed).emits(
            EffectModel::Unbuffered(r.pending_conn_release),
        );
        assert forall|k: u32| #[trigger] a.credit(k) <= m.credit(k) by {}
        lemma_quiet_step(m, a, apart);
        lemma_releases_conn_metered(a, r.pending_conn_release, apart);
        lemma_metered_chains(m, a, n, apart);
    } else {
        assert forall|k: u32| #[trigger] n.credit(k) <= m.credit(k) by {}
        lemma_quiet_step(m, n, apart);
    }
}

/// A request that is started opens a stream with the credit every stream starts
/// with, and sends none of it.
proof fn lemma_sends_request_metered(
    m: UpModel,
    request: u32,
    client_id: u32,
    client: u64,
    head: RequestModel,
    end_stream: bool,
    apart: bool,
)
    requires
        known(m.streams),
        apart ==> waiting_apart(m),
        apart ==> !m.requests.contains_key(request) && forall|i: int|
            0 <= i < m.pending.len() ==> (#[trigger] m.pending[i]).request != request,
    ensures
        metered(m, m.sends_request(request, client_id, client, head, end_stream).0, apart),
{
    reveal(UpModel::sends_request);
    reveal(UpModel::starts_request);
    let n = m.sends_request(request, client_id, client, head, end_stream).0;
    let id = low31(m.next_stream_id);
    let (streams, rejection) = m.streams.locally_opens(id);
    let opens = !m.cancelled.contains(request) && m.draining is None && m.streams.live.len()
        < m.streams.max_concurrent && rejection is None;
    if opens {
        let next = UpModel {
            next_stream_id: if m.next_stream_id > u32::MAX - 2 {
                u32::MAX
            } else {
                (m.next_stream_id + 2) as u32
            },
            streams,
            ..m
        };
        let (enc, block) = next.enc.encoded(request_headers(head));
        let a = UpModel {
            routes: next.routes.push(
                Route {
                    stream: id,
                    client_id,
                    client,
                    request,
                    head_sent: false,
                    pending_conn_release: 0,
                },
            ),
            requests: next.requests.insert(request, id),
            enc,
            ..next
        }.emits(EffectModel::StreamOpened);
        assert(known(a.streams));
        assert forall|k: u32| #[trigger] a.credit(k) <= m.credit(k) by {}
        lemma_quiet_step(m, a, apart);
        let f = FrameModel::Headers { stream_id: id, block, end_stream, end_headers: true };
        lemma_queues_metered(a, f, apart);
        let b = a.queues(f).0;
        lemma_metered_chains(m, a, b, apart);
        assert forall|k: u32| #[trigger] n.credit(k) <= b.credit(k) by {}
        lemma_quiet_step(b, n, apart);
        lemma_metered_chains(m, b, n, apart);
    } else {
        assert forall|k: u32| #[trigger] n.credit(k) <= m.credit(k) by {}
        lemma_quiet_step(m, n, apart);
    }
}

proof fn lemma_starts_oldest_metered(m: UpModel, apart: bool)
    requires
        known(m.streams),
        apart ==> waiting_apart(m),
        m.pending.len() > 0,
    ensures
        metered(m, m.starts_oldest().0, apart),
{
    reveal(UpModel::starts_oldest);
    let p = m.pending[0];
    let a = UpModel { pending: m.pending.skip(1), ..m };
    assert forall|i: int| 0 <= i < a.pending.len() implies #[trigger] a.pending[i] == m.pending[i
        + 1] by {}
    assert forall|k: u32| #[trigger] a.credit(k) <= m.credit(k) by {}
    lemma_quiet_step(m, a, apart);
    lemma_sends_request_metered(a, p.request, p.client_id, p.client, p.head, p.end_stream, apart);
    let b = a.sends_request(p.request, p.client_id, p.client, p.head, p.end_stream).0;
    lemma_metered_chains(m, a, b, apart);
    let n = m.starts_oldest().0;
    if !b.requests.contains_key(p.request) || a.sends_request(
        p.request,
        p.client_id,
        p.client,
        p.head,
        p.end_stream,
    ).1 is Some {
        assert(n == b);
    } else {
        let id = b.requests[p.request];
        assert(n.output == b.output);
        assert(sent(m, n) == sent(m, b));
        assert(apart ==> !m.streams.live.contains_key(id) && id
            > m.streams.highest_local) by {
            reveal(UpModel::sends_request);
            reveal(UpModel::starts_request);
            reveal(UpModel::queues);
        }
        assert(known(n.streams));
        assert forall|k: u32| #[trigger] stream_metered(m, n, k) by {
            assert(stream_metered(m, b, k));
            assert(n.credit(k) == b.credit(k));
        }
        if apart {
            assert forall|k: u32| #[trigger] body_kept(m, n, k) by {
                assert(body_kept(m, b, k));
                assert(k != id ==> queue_of(n.streams, k) == queue_of(b.streams, k));
            }
        }
    }
}

proof fn lemma_starts_pending_metered(m: UpModel, apart: bool)
    requires
        known(m.streams),
        apart ==> waiting_apart(m),
    ensures
        metered(m, m.starts_pending().0, apart),
    decreases m.pending.len(),
{
    if m.streams.live.len() < m.streams.max_concurrent && m.pending.len() > 0 {
        lemma_starts_oldest_pending(m);
        lemma_starts_oldest_metered(m, apart);
        let (n, f) = m.starts_oldest();
        if f is None {
            lemma_starts_pending_metered(n, apart);
            lemma_metered_chains(m, n, n.starts_pending().0, apart);
        }
    } else {
        assert forall|k: u32| #[trigger] m.credit(k) <= m.credit(k) by {}
        lemma_quiet_step(m, m, apart);
    }
}

proof fn lemma_forgets_metered(m: UpModel, id: u32, apart: bool)
    requires
        known(m.streams),
        apart ==> waiting_apart(m),
    ensures
        metered(m, m.forgets(id), apart),
{
    reveal(UpModel::forgets);
    let a = m.without(id);
    lemma_without_metered(m, id, apart);
    let b = a.drops_route(id);
    lemma_drops_route_metered(a, id, apart);
    lemma_metered_chains(m, a, b, apart);
    lemma_starts_pending_metered(b, apart);
    lemma_metered_chains(m, b, b.starts_pending().0, apart);
}

/// A stream that fails is told of, reset and forgotten: none of it is DATA.
proof fn lemma_fails_stream_metered(m: UpModel, id: u32, apart: bool)
    requires
        known(m.streams),
        apart ==> waiting_apart(m),
    ensures
        metered(m, m.fails_stream(id).0, apart),
{
    reveal(UpModel::fails_stream);
    let a = m.reports_failure(id);
    assert forall|k: u32| #[trigger] a.credit(k) <= m.credit(k) by {}
    lemma_quiet_step(m, a, apart);
    if a.streams.live.contains_key(id) {
        let b = a.without(id);
        lemma_without_metered(a, id, apart);
        lemma_metered_chains(m, a, b, apart);
        let f = FrameModel::RstStream { stream_id: id, error_code: ErrorCode::Cancel };
        lemma_queues_metered(b, f, apart);
        let c = b.queues(f).0;
        lemma_metered_chains(m, b, c, apart);
        lemma_forgets_metered(c, id, apart);
        lemma_metered_chains(m, c, c.forgets(id), apart);
    } else {
        lemma_forgets_metered(a, id, apart);
        lemma_metered_chains(m, a, a.forgets(id), apart);
    }
}

proof fn lemma_advances_metered(m: UpModel, id: u32, event: StreamEvent, apart: bool)
    requires
        known(m.streams),
        apart ==> waiting_apart(m),
    ensures
        metered(m, m.advances(id, event).0, apart),
{
    reveal(UpModel::advances);
    let (streams, r) = m.streams.applies(id, event);
    let a = UpModel { streams, ..m };
    assert forall|k: u32| #[trigger] a.credit(k) <= m.credit(k) by {}
    lemma_quiet_step(m, a, apart);
    match r {
        Ok(_) => {
            let n = m.advances(id, event).0;
            assert forall|k: u32| #[trigger] n.credit(k) <= m.credit(k) by {}
            lemma_quiet_step(m, n, apart);
        },
        Err(_) => {
            lemma_fails_stream_metered(a, id, apart);
            lemma_metered_chains(m, a, a.fails_stream(id).0, apart);
        },
    }
}

proof fn lemma_sends_trailers_metered(m: UpModel, id: u32, fields: Seq<HeaderModel>, apart: bool)
    requires
        known(m.streams),
        apart ==> waiting_apart(m),
        id < 0x8000_0000,
    ensures
        metered(m, m.sends_trailers(id, fields).0, apart),
{
    let (enc, block) = m.enc.encoded(fields);
    let a = UpModel { enc, ..m };
    assert forall|k: u32| #[trigger] a.credit(k) <= m.credit(k) by {}
    lemma_quiet_step(m, a, apart);
    let f = FrameModel::Headers { stream_id: id, block, end_stream: true, end_headers: true };
    lemma_queues_metered(a, f, apart);
    let (b, fault) = a.queues(f);
    lemma_metered_chains(m, a, b, apart);
    if fault is None {
        let event = StreamEvent::SendHeaders { end_stream: true };
        lemma_advances_metered(b, id, event, apart);
        lemma_metered_chains(m, b, b.advances(id, event).0, apart);
    }
}

/// What follows the DATA of a visit.
proof fn lemma_after_data_metered(
    m: UpModel,
    id: u32,
    chunk: Seq<u8>,
    trailers: Option<Seq<HeaderModel>>,
    before: UpModel,
    apart: bool,
)
    requires
        metered(before, m, apart),
        id < 0x8000_0000,
    ensures
        ({
            let told = if chunk.len() > 0 && route_of(m.routes, id) is Some {
                let r = route_of(m.routes, id)->0;
                m.tells(
                    r.client,
                    EventModel::BodyAccepted {
                        id: r.client_id,
                        n: chunk.len() as u32,
                    },
                )
            } else {
                m
            };
            &&& metered(before, told, apart)
            &&& trailers matches Some(fields) ==> metered(before, told.sends_trailers(id, fields).0, apart)
        }),
{
    let told = if chunk.len() > 0 && route_of(m.routes, id) is Some {
        let r = route_of(m.routes, id)->0;
        m.tells(
            r.client,
            EventModel::BodyAccepted { id: r.client_id, n: chunk.len() as u32 },
        )
    } else {
        m
    };
    assert forall|k: u32| #[trigger] told.credit(k) <= m.credit(k) by {}
    lemma_quiet_step(m, told, apart);
    lemma_metered_chains(before, m, told, apart);
    if let Some(fields) = trailers {
        lemma_sends_trailers_metered(told, id, fields, apart);
        lemma_metered_chains(before, told, told.sends_trailers(id, fields).0, apart);
    }
}

/// A chunk whose credit is spent goes out, counted from where it was not.
proof fn lemma_sends_chunk_metered(
    before: UpModel,
    m: UpModel,
    id: u32,
    chunk: Seq<u8>,
    end_stream: bool,
    trailers: Option<Seq<HeaderModel>>,
    apart: bool,
)
    requires
        known(m.streams),
        apart ==> waiting_apart(m),
        id < 0x8000_0000,
        m.output == before.output,
        paid(before.send_window, m.send_window, chunk.len()),
        forall|k: u32|
            #[trigger] m.credit(k) + (if k == id {
                chunk.len()
            } else {
                0
            }) <= before.credit(k),
        known(before.streams),
        before.streams.live.contains_key(id),
        m.pending == before.pending,
        m.requests == before.requests,
        before.streams.highest_local == m.streams.highest_local,
        forall|k: u32| #[trigger]
            m.streams.live.contains_key(k) <==> before.streams.live.contains_key(k),
        forall|k: u32| #[trigger]
            m.streams.live.contains_key(k) && k != id ==> m.streams.live[k].send_queue
                == before.streams.live[k].send_queue,
        chunk + m.streams.live[id].send_queue.flatten()
            == before.streams.live[id].send_queue.flatten(),
        chunk.len() <= MAX_ALLOWED_FRAME_SIZE,
    ensures
        metered(before, m.sends_chunk(id, chunk, end_stream, trailers).0, apart),
{
    reveal(UpModel::sends_chunk);
    assert forall|k: u32| #[trigger] m.credit(k) <= before.credit(k) by {}
    if chunk.len() > 0 || end_stream {
        reveal(UpModel::queues);
        let f = FrameModel::Data { stream_id: id, data: chunk, end_stream };
        let (a, fault) = m.queues(f);
        assert(fault is None);
        if fault is None {
            assert forall|k: u32|
                #![trigger queue_of(a.streams, k)]
                if before.streams.live.contains_key(k) {
                    follows(
                        before.streams.live[k].send_queue,
                        bodied(f, k),
                        queue_of(a.streams, k),
                    )
                } else {
                    k <= before.streams.highest_local ==> bodied(f, k).len() == 0
                        && !a.streams.live.contains_key(k)
                } by {
                assert(m.streams.live.contains_key(k) <==> before.streams.live.contains_key(k));
                if before.streams.live.contains_key(k) && k != id {
                    let all = before.streams.live[k].send_queue.flatten();
                    assert(Seq::<u8>::empty() + all =~= all);
                }
            }
            assert forall|k: u32| carried(f, Some(k)) + #[trigger] a.credit(k) <= before.credit(
                k,
            ) by {
                assert(a.credit(k) == m.credit(k));
            }
            lemma_frame_step(before, a, f, apart);
            let event = StreamEvent::SendData { end_stream };
            let (b, fault) = a.advances(id, event);
            lemma_advances_metered(a, id, event, apart);
            lemma_metered_chains(before, a, b, apart);
            if fault is None {
                lemma_after_data_metered(b, id, chunk, trailers, before, apart);
            }
        }
    } else {
        assert(chunk =~= Seq::<u8>::empty());
        let left = m.streams.live[id].send_queue.flatten();
        assert(Seq::<u8>::empty() + left =~= left);
        lemma_quiet_step(before, m, apart);
        lemma_after_data_metered(m, id, chunk, trailers, before, apart);
    }
}

proof fn lemma_visit_metered(m: UpModel, id: u32, apart: bool)
    requires
        known(m.streams),
        apart ==> waiting_apart(m),
    ensures
        metered(m, m.visits(id).0, apart),
{
    reveal(UpModel::visits);
    let n = m.visits(id).0;
    if !m.streams.live.contains_key(id) {
        assert forall|k: u32| #[trigger] m.credit(k) <= m.credit(k) by {}
        lemma_quiet_step(m, n, apart);
    } else {
        let s0 = m.streams.live[id];
        let most = visit_budget(s0.send_window, m.send_window, m.peer.max_frame_size);
        lemma_taken_len(s0.send_queue, most);
        let (chunk, rest) = taken_front(s0.send_queue, most);
        let drained = rest.len() == 0;
        let trailers = if drained {
            s0.pending_trailers
        } else {
            None
        };
        let end_stream = drained && s0.send_end_stream && trailers is None;
        sending_preserves_the_octets(s0.send_queue, most);
        if (total_len(s0.send_queue) > 0 && most == 0) || (chunk.len() == 0
            && !end_stream && trailers is None) {
            assert forall|k: u32| #[trigger] n.credit(k) <= m.credit(k) by {}
            assert(chunk.len() == 0 ==> chunk =~= Seq::<u8>::empty());
            assert(Seq::<u8>::empty() + rest.flatten() =~= rest.flatten());
            lemma_quiet_step(m, n, apart);
        } else {
            let s = StreamModel {
                queued: false,
                send_queue: rest,
                pending_trailers: if drained {
                    None
                } else {
                    s0.pending_trailers
                },
                send_end_stream: s0.send_end_stream && !end_stream && trailers is None,
                send_window: Window((s0.send_window.0 - chunk.len()) as i32),
                ..s0
            };
            let a = UpModel {
                streams: m.streams.with(id, s),
                send_window: Window((m.send_window.0 - chunk.len()) as i32),
                ..m
            };
            assert(n == a.sends_chunk(id, chunk, end_stream, trailers).0);
            lemma_sends_chunk_metered(m, a, id, chunk, end_stream, trailers, apart);
        }
    }
}

proof fn lemma_lap_metered(m: UpModel, ids: Seq<u32>, apart: bool)
    requires
        known(m.streams),
        apart ==> waiting_apart(m),
    ensures
        metered(m, up_lap(m, ids).conn, apart),
    decreases ids.len(),
{
    if ids.len() == 0 {
        assert forall|k: u32| #[trigger] m.credit(k) <= m.credit(k) by {}
        lemma_quiet_step(m, m, apart);
    } else {
        lemma_lap_metered(m, ids.drop_last(), apart);
        let l = up_lap(m, ids.drop_last());
        if l.fault is None {
            lemma_visit_metered(l.conn, ids.last(), apart);
            lemma_metered_chains(m, l.conn, l.conn.visits(ids.last()).0, apart);
        }
    }
}

proof fn lemma_laps_metered(m: UpModel, apart: bool)
    requires
        known(m.streams),
        apart ==> waiting_apart(m),
    ensures
        metered(m, m.laps().conn, apart),
{
    let start = UpModel { ready: Seq::empty(), ..m };
    assert forall|k: u32| #[trigger] start.credit(k) <= m.credit(k) by {}
    lemma_quiet_step(m, start, apart);
    lemma_lap_metered(start, m.ready, apart);
    let l = up_lap(start, m.ready);
    lemma_metered_chains(m, start, l.conn, apart);
    if l.fault is None {
        let ring = l.stalled + l.served + l.conn.ready;
        let n = m.laps().conn;
        lemma_marked_windows(l.conn.streams, ring);
        lemma_marked_dom(l.conn.streams, ring);
        assert forall|k: u32| #[trigger] n.credit(k) <= l.conn.credit(k) by {
            assert(n.streams.live.dom().contains(k) == l.conn.streams.live.dom().contains(k));
        }
        lemma_quiet_step(l.conn, n, apart);
        lemma_metered_chains(m, l.conn, n, apart);
    }
}

proof fn lemma_pumps_metered(m: UpModel, apart: bool)
    requires
        m.streams.live.dom().finite(),
        known(m.streams),
        apart ==> waiting_apart(m),
    ensures
        metered(m, m.pumps().0, apart),
    decreases m.pending.len(), m.work_left(), m.ready.len(),
{
    lemma_laps_progress(m);
    assert forall|k: u32| #[trigger] m.credit(k) <= m.credit(k) by {}
    lemma_quiet_step(m, m, apart);
    if m.ready.len() > 0 && m.output.len() < MAX_WRITE_QUEUE {
        lemma_laps_metered(m, apart);
        let l = m.laps();
        if l.fault is None && l.wrote {
            lemma_pumps_metered(l.conn, apart);
            lemma_metered_chains(m, l.conn, l.conn.pumps().0, apart);
        }
    }
}

proof fn lemma_hears_known(m: UpModel, msg: MessageModel)
    requires
        known(m.streams),
    ensures
        known(m.hears(msg).0.streams),
{
    match msg {
        MessageModel::Request { id, client_id, client, head, end_stream } => {
            lemma_sends_request_untouched(m, id, client_id, client, head, end_stream);
        },
        MessageModel::Body { .. } => {
            reveal(UpModel::takes_body);
        },
        MessageModel::Trailers { .. } => {
            reveal(UpModel::takes_request_trailers);
        },
        MessageModel::Released { .. } => {
            reveal(UpModel::releases);
            reveal(UpModel::settles);
            reveal(UpModel::settles_at);
            reveal(UpModel::queues);
        },
        MessageModel::Cancel { .. } => {
            reveal(UpModel::cancels);
            reveal(UpModel::settles);
            reveal(UpModel::settles_at);
            reveal(UpModel::queues);
            assert forall|n: UpModel, stream: u32| known(n.streams) implies known(
                (#[trigger] n.forgets(stream)).streams,
            ) by {
                lemma_forgets_metered(n, stream, false);
            }
        },
        MessageModel::Left { client } => {
            nothing_is_held_for_a_client_that_left(m, client);
        },
    }
}

proof fn lemma_drains_known(m: UpModel, now: u64)
    requires
        known(m.streams),
        m.streams.live.dom().finite(),
    ensures
        known(m.drains(now).0.streams),
        m.drains(now).0.streams.live.dom().finite(),
    decreases m.input.len(),
{
    let (r, rest) = taken(m.max_frame_size, m.input);
    let n = UpModel { input: rest, ..m };
    if let Ok(Some(d)) = r {
        if let DecodedModel::Frame(f) = d {
            lemma_handles_untouched(n, f, now);
        }
        let (n2, f) = n.takes(d, now);
        if f is None && n2.input.len() < m.input.len() {
            lemma_drains_known(n2, now);
        }
    }
}

/// Every stream of an upstream connection was opened from this side, from the
/// first turn on, whatever woke the loop and whatever arrived.
pub proof fn every_stream_is_known(t: Tuning, m: UpModel, w: WakeModel, now: u64)
    ensures
        known(UpModel::initial(t).streams),
        known(m.streams) ==> known(m.wakes(w, now).0.streams),
        known(m.streams) && m.streams.live.dom().finite() ==> known(m.turns(now).0.streams),
{
    if known(m.streams) {
        match w {
            WakeModel::Message(msg) => {
                lemma_hears_known(m, msg);
            },
            WakeModel::ProbeTimer => {
                reveal(UpModel::probes);
                reveal(UpModel::queues);
            },
            _ => {},
        }
        if m.streams.live.dom().finite() {
            lemma_drains_known(m, now);
            lemma_pumps_metered(m.drains(now).0, false);
        }
    }
}

/// Request bodies arrive as they were queued: read off the wire, the DATA that
/// pumping writes for a request is the front of what was queued for it, octet for
/// octet and in order, and what is left queued is the rest. Nothing goes out for
/// a stream that is over.
pub proof fn a_request_body_goes_out_as_it_was_queued(m: UpModel, id: u32)
    requires
        m.streams.live.dom().finite(),
        known(m.streams),
        waiting_apart(m),
    ensures
        ({
            let n = m.pumps().0;
            let went = body_octets(sent(m, n), id);
            if m.streams.live.contains_key(id) {
                let queued = m.streams.live[id].send_queue.flatten();
                if n.streams.live.contains_key(id) {
                    went + n.streams.live[id].send_queue.flatten() == queued
                } else {
                    went.is_prefix_of(queued)
                }
            } else {
                id <= m.streams.highest_local ==> went.len() == 0
            }
        }),
{
    lemma_pumps_metered(m, true);
    assert(body_kept(m, m.pumps().0, id));
}

/// No request octet goes out on credit that was not given, at either level:
/// counted off the wire, the DATA that pumping writes fits the connection window,
/// that of each stream fits what the backend lets it send, and both are left that
/// much smaller; also where streams end, fail or start on the way.
pub proof fn no_request_octet_goes_out_on_credit_not_given(m: UpModel, id: u32)
    requires
        m.streams.live.dom().finite(),
        known(m.streams),
    ensures
        ({
            let n = m.pumps().0;
            let all = data_octets(sent(m, n), None);
            let own = data_octets(sent(m, n), Some(id));
            &&& extends(m.output, n.output)
            &&& whole(sent(m, n))
            &&& all <= m.send_window.spendable()
            &&& all <= m.send_window.0 - n.send_window.0
            &&& m.send_window.0 >= 0 ==> n.send_window.0 >= 0
            &&& m.send_window.0 < 0 ==> n.send_window.0 == m.send_window.0
            &&& own <= m.credit(id)
            &&& own + n.credit(id) <= m.credit(id)
            &&& known(n.streams)
        }),
{
    lemma_pumps_metered(m, false);
    assert(stream_metered(m, m.pumps().0, id));
}

} // verus!
