//! What holds of every request on its way through the proxy.

use crate::conn::ErrorCode;
use crate::health::health_fails_open;
use crate::hpack::HeaderModel;
use crate::lb::{sampled, the_samples_are_distinct, Backend, BackendLoad};
use crate::pool::{a_change_touches_its_connection_only, conn_at, UpstreamRecord};
use crate::proxy::forward::{
    idempotent, lemma_filter_twice, naming_the_client_loses_nothing_else, sanitized,
    sanitizing_loses_nothing_but_the_hop,
};
use crate::proxy::stats::{StatsModel, LATENCY_BUCKETS};
use crate::proxy::{
    blamed, elsewhere, failure_noted, local_answer, retried, retry_counted, stream_at, watched,
    ProxyModel, ProxyRouteModel, SharedModel, MAX_ATTEMPTS,
};
use crate::service::{text_octets, EventModel, RequestModel, ResponseModel};
use crate::upstream::model::MessageModel;
use crate::upstream::probe::elapsed;
use vstd::prelude::*;

verus! {

/// With a backend configured, a request always finds one to try; with none, it
/// never does, and is answered rather than dropped.
pub proof fn a_request_finds_a_backend_if_there_is_one(
    s: SharedModel,
    exclude: Option<Backend>,
    now: u64,
)
    ensures
        s.picks(exclude, now).1 is Some <==> s.backends.len() > 0,
{
    let loads = s.pool.loads(s.backends);
    if s.backends.len() > 0 {
        health_fails_open(s.health, loads, now);
    } else {
        assert(loads =~= Seq::empty());
        assert(s.health.choices(loads, now).len() == 0);
        if let Some(failed) = exclude {
            assert(elsewhere(s.health.choices(loads, now), failed).len() == 0);
        }
    }
}

proof fn lemma_elsewhere(candidates: Seq<BackendLoad>, failed: Backend)
    ensures
        forall|i: int|
            0 <= i < elsewhere(candidates, failed).len() ==> (#[trigger] elsewhere(
                candidates,
                failed,
            )[i]).backend != failed,
        forall|i: int|
            0 <= i < candidates.len() && (#[trigger] candidates[i]).backend != failed
                ==> elsewhere(candidates, failed).len() > 0,
    decreases candidates.len(),
{
    if candidates.len() > 0 {
        let init = candidates.drop_last();
        lemma_elsewhere(init, failed);
        assert forall|i: int|
            0 <= i < candidates.len() && (#[trigger] candidates[i]).backend != failed implies
            elsewhere(candidates, failed).len() > 0 by {
            if i < init.len() {
                assert(init[i] == candidates[i]);
            }
        }
    }
}

/// A retry lands somewhere else: the backend that failed is not picked again
/// while another is eligible.
pub proof fn a_retry_lands_elsewhere(s: SharedModel, failed: Backend, k: int, now: u64)
    requires
        ({
            let eligible = s.health.choices(s.pool.loads(s.backends), now);
            0 <= k < eligible.len() && eligible[k].backend != failed
        }),
    ensures
        s.picks(Some(failed), now).1 is Some,
        s.picks(Some(failed), now).1 != Some(failed),
{
    let eligible = s.health.choices(s.pool.loads(s.backends), now);
    lemma_elsewhere(eligible, failed);
    let others = elsewhere(eligible, failed);
    if others.len() >= 2 {
        the_samples_are_distinct(s.draw, others.len());
        let (i, j) = sampled(s.draw, others.len());
        assert(others[i].backend != failed);
        assert(others[j].backend != failed);
    } else {
        assert(others[0].backend != failed);
    }
}

/// Only a request that can be replayed is kept for it: one without a body, by a
/// method that is safe to send twice.
pub proof fn only_a_replayable_request_is_kept(
    p: ProxyModel,
    head: RequestModel,
    end_stream: bool,
)
    ensures
        p.first_attempt(head, end_stream).spare is Some <==> end_stream && idempotent(head.method),
        p.first_attempt(head, end_stream).head.method == head.method,
        p.first_attempt(head, end_stream).attempts == 1,
{
}

/// A request is sent at most twice, and never again once an answer has begun.
pub proof fn a_request_is_sent_at_most_twice(r: ProxyRouteModel)
    requires
        r.attempts >= 1,
    ensures
        ProxyModel::may_retry(r) ==> !r.response_started && ProxyModel::second_attempt(r).attempts
            == MAX_ATTEMPTS,
        r.attempts >= MAX_ATTEMPTS ==> !ProxyModel::may_retry(r),
        r.response_started ==> !ProxyModel::may_retry(r),
{
}

/// A stream whose answer has begun keeps every later event: a failure is passed
/// on, and no second attempt is made.
pub proof fn a_begun_answer_is_never_replaced(
    p: ProxyModel,
    s: SharedModel,
    id: u32,
    response: ResponseModel,
    end_stream: bool,
    now: u64,
    later: EventModel,
    then: u64,
)
    requires
        p.route(id) is Some,
        later == (EventModel::Gone { id }) || (later is Reset && later->Reset_id == id),
    ensures
        ({
            let w = watched(EventModel::Head { id, response, end_stream }, p, s, now);
            let v = watched(later, w.proxy, w.shared, then);
            v.passed == Some(later) && v.placed is None
        }),
{
    let r = p.route(id)->0;
    let q = p.routing(ProxyRouteModel { response_started: true, ..r });
    crate::proxy::lemma_stream_id(p.routes, id);
    lemma_route_after_update(p, id, ProxyRouteModel { response_started: true, ..r });
}

/// Replacing a stream's route replaces what is found under its id.
proof fn lemma_route_after_update(p: ProxyModel, id: u32, r: ProxyRouteModel)
    requires
        p.route(id) is Some,
        r.id == id,
    ensures
        p.routing(r).route(id) == Some(r),
{
    let i = crate::proxy::stream_at(p.routes, id);
    lemma_stream_at_update(p.routes, id, r);
    assert(p.routing(r).routes == p.routes.update(i as int, r));
}

proof fn lemma_stream_at_update(routes: Seq<ProxyRouteModel>, id: u32, r: ProxyRouteModel)
    requires
        crate::proxy::stream_at(routes, id) < routes.len(),
        r.id == id,
    ensures
        crate::proxy::stream_at(
            routes.update(crate::proxy::stream_at(routes, id) as int, r),
            id,
        ) == crate::proxy::stream_at(routes, id),
    decreases routes.len(),
{
    let i = crate::proxy::stream_at(routes, id) as int;
    let init = routes.drop_last();
    if crate::proxy::stream_at(init, id) < init.len() {
        lemma_stream_at_update(init, id, r);
        assert(routes.update(i, r).drop_last() =~= init.update(i, r));
    } else {
        assert(routes.update(i, r).drop_last() =~= init);
    }
}

/// Nothing that befalls a request is swallowed: its client hears of it, or is
/// answered in its place, or a second attempt is on its way.
pub proof fn nothing_is_swallowed(p: ProxyModel, s: SharedModel, event: EventModel, now: u64)
    ensures
        ({
            let w = watched(event, p, s, now);
            ||| w.passed == Some(event) && w.placed is None && w.events.len() == 0
            ||| w.passed is None && w.placed is Some && w.events.len() == 0
            ||| w.passed is None && w.placed is None && w.events.len() == 1 && w.events[0] is Head
        }),
        watched(event, p, s, now).passed is None ==> event is Gone || (event is Reset
            && event->code == ErrorCode::RefusedStream),
{
}

/// A stream the backend reset is a considered answer about one request, whatever
/// the code: it is passed on as it is and held against nobody. Only a refusal
/// is ever replaced, and that is not held against the backend either. A
/// connection that died is.
pub proof fn only_evidence_counts_against_a_backend(
    p: ProxyModel,
    s: SharedModel,
    id: u32,
    code: ErrorCode,
    now: u64,
)
    requires
        p.route(id) is Some,
    ensures
        code != ErrorCode::RefusedStream ==> ({
            let reset = EventModel::Reset { id, code };
            let w = watched(reset, p, s, now);
            &&& w.passed == Some(reset)
            &&& w.placed is None
            &&& w.events.len() == 0
            &&& w.proxy == p
            &&& w.shared == s
        }),
        !ProxyModel::may_retry(p.route(id)->0) ==> {
            &&& watched(EventModel::Reset { id, code }, p, s, now).shared == s
            &&& watched(EventModel::Gone { id }, p, s, now).shared == failure_noted(
                s,
                p.route(id)->0.backend,
                now,
            )
        },
        ProxyModel::may_retry(p.route(id)->0) ==> {
            let refused = EventModel::Reset { id, code: ErrorCode::RefusedStream };
            &&& watched(refused, p, s, now).shared == retried(p, s, id, now).shared
            &&& watched(EventModel::Gone { id }, p, s, now).shared == retried(
                p,
                failure_noted(s, p.route(id)->0.backend, now),
                id,
                now,
            ).shared
        },
{
}

/// A backend that failed a request has failed it, whatever answer its client gets
/// in its place: the failure is noted once, no second attempt is made, and the
/// answer that follows is no proof that the backend is there.
pub proof fn an_answer_made_for_a_backend_does_not_clear_it(
    p: ProxyModel,
    s: SharedModel,
    id: u32,
    response: ResponseModel,
    now: u64,
    then: u64,
)
    requires
        p.route(id) is Some,
    ensures
        ({
            let (q, t) = blamed(p, s, id, now);
            let head = EventModel::Head { id, response, end_stream: true };
            let w = watched(head, q, t, then);
            &&& w.passed == Some(head)
            &&& w.placed is None
            &&& w.shared.health == s.health.after_failure(p.route(id)->0.backend, now)
            &&& w.shared.stats == s.stats.answered(response.status)
        }),
{
    let r = ProxyRouteModel { faulted: true, ..p.route(id)->0 };
    crate::proxy::lemma_stream_id(p.routes, id);
    lemma_route_after_update(p, id, r);
}

/// A stream whose second attempt finds no backend is answered, and over: its
/// gauge is closed and its latency recorded, as for any other ending.
pub proof fn a_retry_without_a_backend_ends_its_stream(
    p: ProxyModel,
    s: SharedModel,
    id: u32,
    now: u64,
)
    requires
        retried(p, s, id, now).placed is None,
    ensures
        ({
            let w = retried(p, s, id, now);
            let r = p.route(id)->0;
            &&& w.events == seq![local_answer(id, 503)]
            &&& w.shared.stats == retry_counted(s).stats.stream_closed().observing(
                elapsed(now, r.started),
            )
        }),
{
}

/// An event for a stream that has no route here is passed on, and says nothing
/// about any backend.
pub proof fn an_event_without_a_route_is_passed_on(
    p: ProxyModel,
    s: SharedModel,
    id: u32,
    code: ErrorCode,
    now: u64,
)
    requires
        p.route(id) is None,
    ensures
        ({
            let gone = EventModel::Gone { id };
            let reset = EventModel::Reset { id, code };
            &&& watched(gone, p, s, now).passed == Some(gone)
            &&& watched(reset, p, s, now).passed == Some(reset)
            &&& watched(gone, p, s, now).shared == s
            &&& watched(reset, p, s, now).shared == s
        }),
{
}

/// A request is forwarded whole: the message that goes out carries its method,
/// scheme, authority and path, every field of it that is not about the hop to the
/// client as it came and in order, and its end if it has one; and it names the
/// client stream it is for, and the request its lease is for.
pub proof fn a_request_is_forwarded_whole(
    p: ProxyModel,
    s: SharedModel,
    id: u32,
    head: RequestModel,
    end_stream: bool,
    now: u64,
)
    requires
        p.places(s, id, p.first_attempt(head, end_stream), now).1 is Some,
    ensures
        ({
            let placed = p.places(s, id, p.first_attempt(head, end_stream), now).1->0;
            &&& placed.msg matches MessageModel::Request {
                id: request,
                client_id,
                client,
                head: sent,
                end_stream: ends,
            }
            &&& request == placed.lease.id.0
            &&& client_id == id
            &&& client == p.client
            &&& ends == end_stream
            &&& sent.method == head.method
            &&& sent.scheme == head.scheme
            &&& sent.authority == head.authority
            &&& sent.path == head.path
            &&& p.peer is None ==> sent.fields == head.fields.filter(
                |h: HeaderModel| h.name != text_octets("te"@),
            )
            &&& p.peer is Some ==> sent.fields.len() >= 2 && sent.fields.take(
                sent.fields.len() - 2,
            ) == head.fields.filter(
                |h: HeaderModel|
                    h.name != text_octets("te"@) && h.name != text_octets("x-forwarded-for"@)
                        && h.name != text_octets("x-forwarded-proto"@),
            )
            &&& placed.ticket.id == id && placed.ticket.end_stream == end_stream
            &&& placed.ticket.spare is Some ==> placed.ticket.spare == Some(sent)
            &&& s.backends.contains(placed.lease.backend)
        }),
{
    sanitizing_loses_nothing_but_the_hop(head);
    let clean = sanitized(head);
    let te = text_octets("te"@);
    let xff = text_octets("x-forwarded-for"@);
    let xfp = text_octets("x-forwarded-proto"@);
    match p.peer {
        Some(peer) => {
            naming_the_client_loses_nothing_else(clean, peer, p.trust);
            lemma_filter_twice(
                head.fields,
                |h: HeaderModel| h.name != te,
                |h: HeaderModel| h.name != xff && h.name != xfp,
                |h: HeaderModel| h.name != te && h.name != xff && h.name != xfp,
            );
        },
        None => {
            naming_the_client_loses_nothing_else(clean, Seq::empty(), p.trust);
        },
    }
    a_pick_is_a_configured_backend(s, None, now);
}

/// Whatever is picked is one of the backends that are configured; and where the
/// one that failed is left out, it is not that one unless there is no other.
pub proof fn a_pick_is_a_configured_backend(s: SharedModel, exclude: Option<Backend>, now: u64)
    ensures
        s.picks(exclude, now).1 matches Some(b) ==> s.backends.contains(b),
{
    let loads = s.pool.loads(s.backends);
    if s.backends.len() > 0 {
        health_fails_open(s.health, loads, now);
    }
    let eligible = s.health.choices(loads, now);
    let candidates = s.candidates(exclude, now);
    assert forall|i: int| 0 <= i < eligible.len() implies s.backends.contains(
        (#[trigger] eligible[i]).backend,
    ) by {
        if s.backends.len() == 0 {
            assert(loads =~= Seq::empty());
        }
        assert(loads.contains(eligible[i]));
        let k = loads.index_of(eligible[i]);
        assert(s.backends[k] == eligible[i].backend);
    }
    if let Some(failed) = exclude {
        elsewhere_is_everywhere_else(eligible, failed);
        let kept = eligible.filter(|c: BackendLoad| c.backend != failed);
        assert forall|i: int| 0 <= i < kept.len() implies s.backends.contains(
            (#[trigger] kept[i]).backend,
        ) by {
            eligible.lemma_filter_contains_rev(|c: BackendLoad| c.backend != failed, kept[i]);
            let k = eligible.index_of(kept[i]);
            assert(eligible[k] == kept[i]);
        }
    }
    assert forall|i: int| 0 <= i < candidates.len() implies s.backends.contains(
        (#[trigger] candidates[i]).backend,
    ) by {}
    if candidates.len() >= 2 {
        the_samples_are_distinct(s.draw, candidates.len());
    }
}

/// Elsewhere is every candidate but the one that failed, with its load and in
/// order.
pub proof fn elsewhere_is_everywhere_else(candidates: Seq<BackendLoad>, failed: Backend)
    ensures
        elsewhere(candidates, failed) == candidates.filter(
            |c: BackendLoad| c.backend != failed,
        ),
    decreases candidates.len(),
{
    reveal(Seq::filter);
    if candidates.len() > 0 {
        elsewhere_is_everywhere_else(candidates.drop_last(), failed);
    }
}

/// A second attempt is the same request for the same client stream, under a lease
/// of its own; the lease of the first is given back.
pub proof fn a_second_attempt_is_the_same_request(
    p: ProxyModel,
    s: SharedModel,
    id: u32,
    now: u64,
)
    requires
        p.route(id) is Some,
        retried(p, s, id, now).placed is Some,
    ensures
        ({
            let r = p.route(id)->0;
            let placed = retried(p, s, id, now).placed->0;
            &&& placed.msg == (MessageModel::Request {
                id: placed.lease.id.0,
                client_id: id,
                client: p.client,
                head: r.head->0,
                end_stream: true,
            })
            &&& placed.ticket.id == id
            &&& placed.ticket.attempts == (r.attempts + 1) as u8
            &&& placed.ticket.carry == Some(r.started)
            &&& retried(p, s, id, now).shared.stats.retries == s.stats.retries.wrapping_add(1)
        }),
{
}

/// A stream that opens and closes leaves the gauge where it was, and one that
/// ends gives back the slot its lease took on that connection, and no other.
pub proof fn an_ending_gives_back_what_the_stream_took(
    s: SharedModel,
    r: ProxyRouteModel,
    now: u64,
    other: Backend,
)
    ensures
        s.stats.client_streams < usize::MAX ==> s.stats.stream_opened().stream_closed().client_streams
            == s.stats.client_streams,
        ({
            let n = s.finishes(r, now);
            &&& other != r.lease.backend ==> n.pool.conns(other) == s.pool.conns(other)
            &&& n.pool.conns(r.lease.backend).len() == s.pool.conns(r.lease.backend).len()
            &&& conn_at(s.pool.conns(r.lease.backend), r.lease.key) < s.pool.conns(
                r.lease.backend,
            ).len() && s.pool.record(r.lease.backend, r.lease.key).live > 0 ==> n.pool.record(
                r.lease.backend,
                r.lease.key,
            ).live == s.pool.record(r.lease.backend, r.lease.key).live - 1
            &&& n.health == s.health
            &&& n.stats.latency_count == s.stats.latency_count.wrapping_add(1)
            &&& s.stats.client_streams > 0 ==> n.stats.client_streams == s.stats.client_streams - 1
        }),
{
    let b = r.lease.backend;
    let key = r.lease.key;
    let record = s.pool.record(b, key).released();
    a_change_touches_its_connection_only(s.pool, b, key, record, other, 0);
    let conns = s.pool.conns(b);
    let i = conn_at(conns, key) as int;
    if i < conns.len() {
        lemma_conn_at_updated(conns, key, record);
    }
}

proof fn lemma_conn_at_updated(conns: Seq<UpstreamRecord>, key: u64, r: UpstreamRecord)
    requires
        conn_at(conns, key) < conns.len(),
        r.key == conns[conn_at(conns, key) as int].key,
    ensures
        conn_at(conns.update(conn_at(conns, key) as int, r), key) == conn_at(conns, key),
    decreases conns.len(),
{
    let i = conn_at(conns, key) as int;
    let init = conns.drop_last();
    if conn_at(init, key) < init.len() {
        lemma_conn_at_updated(init, key, r);
        assert(conns.update(i, r).drop_last() =~= init.update(i, r));
    } else {
        assert(conns.update(i, r).drop_last() =~= init);
    }
}

/// An answer is counted in the class of its status, and in no other; what is not
/// a status counts with the nearest.
pub proof fn an_answer_is_counted_in_its_class(s: StatsModel, status: u16, class: int)
    requires
        s.responses.len() == 5,
        1 <= class <= 5,
        100 <= status <= 599,
    ensures
        s.answered(status).responses[class - 1] == (if 100 * class <= status < 100 * class + 100 {
            s.responses[class - 1].wrapping_add(1)
        } else {
            s.responses[class - 1]
        }),
        s.answered(status) == (StatsModel { responses: s.answered(status).responses, ..s }),
{
}

/// A latency is counted in every bucket that holds it, once in the total, and
/// adds what it took to the sum, in whole microseconds.
pub proof fn a_latency_is_counted_where_it_falls(s: StatsModel, nanos: u64, i: int)
    requires
        s.latency.len() == 14,
        0 <= i < 14,
    ensures
        ({
            let n = s.observing(nanos);
            &&& n.latency.len() == 14
            &&& n.latency[i] == (if nanos <= LATENCY_BUCKETS@[i] {
                s.latency[i].wrapping_add(1)
            } else {
                s.latency[i]
            })
            &&& n.latency_count == s.latency_count.wrapping_add(1)
            &&& n.latency_sum_micros == s.latency_sum_micros.wrapping_add((nanos / 1000) as u64)
            &&& n.responses == s.responses && n.client_streams == s.client_streams
        }),
{
}

/// A stream has one route: the one that was put there, until it is dropped; the
/// routes of other streams are not touched.
pub proof fn a_route_stays_until_it_is_dropped(p: ProxyModel, r: ProxyRouteModel, other: u32)
    requires
        forall|i: int, j: int|
            0 <= i < j < p.routes.len() ==> (#[trigger] p.routes[i]).id != (
            #[trigger] p.routes[j]).id,
        other != r.id,
    ensures
        p.routing(r).route(r.id) == Some(r),
        p.routing(r).route(other) == p.route(other),
        p.dropping(r.id).route(r.id) is None,
        p.dropping(r.id).route(other) == p.route(other),
        forall|i: int, j: int|
            0 <= i < j < p.routing(r).routes.len() ==> (#[trigger] p.routing(r).routes[i]).id != (
            #[trigger] p.routing(r).routes[j]).id,
{
    lemma_stream_at(p.routes, r.id);
    lemma_stream_at(p.routes, other);
    lemma_stream_at(p.routing(r).routes, r.id);
    lemma_stream_at(p.routing(r).routes, other);
    lemma_stream_at(p.dropping(r.id).routes, r.id);
    lemma_stream_at(p.dropping(r.id).routes, other);
    let i = stream_at(p.routes, r.id) as int;
    let j = stream_at(p.routes, other) as int;
    let put = p.routing(r).routes;
    let left = p.dropping(r.id).routes;
    if i < p.routes.len() {
        assert(put[i] == r);
        if j < p.routes.len() {
            assert(put[j] == p.routes[j]);
            assert(left[if j < i {
                j
            } else {
                j - 1
            }] == p.routes[j]);
        }
    } else {
        assert(put[p.routes.len() as int] == r);
        if j < p.routes.len() {
            assert(put[j] == p.routes[j]);
        }
    }
    let a = stream_at(put, other) as int;
    if a < put.len() {
        assert(a < p.routes.len() && put[a] == p.routes[a]);
    }
    let b = stream_at(left, other) as int;
    if b < left.len() && i < p.routes.len() {
        assert(left[b] == p.routes[if b < i {
            b
        } else {
            b + 1
        }]);
    }
    let c = stream_at(left, r.id) as int;
    if c < left.len() && i < p.routes.len() {
        assert(left[c] == p.routes[if c < i {
            c
        } else {
            c + 1
        }]);
    }
}

proof fn lemma_stream_at(routes: Seq<ProxyRouteModel>, id: u32)
    ensures
        stream_at(routes, id) <= routes.len(),
        stream_at(routes, id) < routes.len() ==> routes[stream_at(routes, id) as int].id == id,
        forall|k: int| 0 <= k < stream_at(routes, id) ==> (#[trigger] routes[k]).id != id,
    decreases routes.len(),
{
    if routes.len() > 0 {
        let init = routes.drop_last();
        lemma_stream_at(init, id);
        assert forall|k: int| 0 <= k < stream_at(routes, id) implies (#[trigger] routes[k]).id
            != id by {
            if k < init.len() {
                assert(init[k] == routes[k]);
            }
        }
    }
}

} // verus!
