//! The proxy request path: route, balance, forward, and watch what comes back.
//!
//! A client connection hands over a validated request; a backend is picked with
//! [`crate::lb`] among those [`crate::health`] thinks well of, a slot is leased
//! with [`crate::pool`], and the head, body, and trailers are forwarded to the
//! [`crate::upstream`] connection holding that lease. Everything coming back is
//! already addressed in the client's stream-id space.
//!
//! This module holds no protocol state: no windows, no HPACK tables, no stream
//! machine. What lives here is one table from client stream to lease, and the
//! header sanitation that has to happen exactly once.
//!
//! # Messages that may not arrive
//!
//! An upstream connection can be gone by the time a message for it is sent, and
//! only the sender finds out. So a step that sends hands the message out, and what
//! became of it comes back: [`Proxy::settle`] for a request,
//! [`Proxy::undelivered_body`] for a body.

pub mod admission;
pub mod forward;
pub mod laws;
pub mod stats;

use crate::conn::{default_tuning, ErrorCode, Tuning};
use crate::health::{Health, HealthModel, Policy};
use crate::hpack::{headers_view, Header};
use crate::lb::{picked, state_after, Backend, BackendLoad, LoadBalancer, PowerOfTwoChoices};
use crate::octets::{as_slice, octets};
use crate::pool::{Lease, Pool, PoolModel, UpstreamRecord};
use crate::proxy::admission::Admission;
use crate::proxy::forward::{
    add_forwarded, forwarded, idempotent, is_idempotent, sanitize, sanitized,
};
use crate::proxy::stats::{ProxyStats, StatsModel};
use crate::service::{
    events_view, lemma_events_push, EventModel, RequestHead, RequestModel, Response, ServiceEvent,
};
use crate::stream::StreamId;
use crate::upstream::model::{bare, MessageModel};
use crate::upstream::probe::elapsed;
use crate::upstream::ToUpstream;
use bytes::Bytes;
use vstd::prelude::*;

verus! {

/// One retry, never more. A single attempt with a different-backend constraint
/// bounds amplification at two and needs no jitter and no budget.
pub const MAX_ATTEMPTS: u8 = 2;

/// Everything the proxy shares between client connections.
#[derive(Debug)]
pub struct Shared {
    pub pool: Pool,
    pub backends: Vec<Backend>,
    pub balancer: PowerOfTwoChoices,
    pub stats: ProxyStats,
    /// Which backends are worth sending to. Filters the candidate list before
    /// the balancer ever sees it.
    pub health: Health,
    /// How many streams client connections may open.
    pub admission: Admission,
    pub tuning: Tuning,
}

/// What client connections share.
#[verifier::ext_equal]
pub struct SharedModel {
    pub pool: PoolModel,
    pub backends: Seq<Backend>,
    pub draw: u64,
    pub stats: StatsModel,
    pub health: HealthModel,
    pub admission: Admission,
    pub tuning: Tuning,
}

impl View for Shared {
    type V = SharedModel;

    open spec fn view(&self) -> SharedModel {
        SharedModel {
            pool: self.pool@,
            backends: self.backends@,
            draw: self.balancer.state,
            stats: self.stats@,
            health: self.health@,
            admission: self.admission,
            tuning: self.tuning,
        }
    }
}

/// The candidates but one backend, in order.
pub open spec fn elsewhere(candidates: Seq<BackendLoad>, failed: Backend) -> Seq<BackendLoad>
    decreases candidates.len(),
{
    if candidates.len() == 0 {
        Seq::empty()
    } else if candidates.last().backend == failed {
        elsewhere(candidates.drop_last(), failed)
    } else {
        elsewhere(candidates.drop_last(), failed).push(candidates.last())
    }
}

/// Milliseconds of a count of nanoseconds.
pub open spec fn millis(nanos: u64) -> u64 {
    nanos / 1_000_000
}

impl SharedModel {
    /// What the balancer chooses from: the eligible backends, and where a retry
    /// can land somewhere else, only those.
    pub open spec fn candidates(self, exclude: Option<Backend>, now: u64) -> Seq<BackendLoad> {
        let eligible = self.health.choices(self.pool.loads(self.backends), now);
        match exclude {
            Some(failed) => if elsewhere(eligible, failed).len() > 0 {
                elsewhere(eligible, failed)
            } else {
                eligible
            },
            None => eligible,
        }
    }

    /// A backend is picked, and its trial claimed where it is half-open.
    pub open spec fn picks(self, exclude: Option<Backend>, now: u64) -> (
        SharedModel,
        Option<Backend>,
    ) {
        let candidates = self.candidates(exclude, now);
        let chosen = picked(self.draw, candidates);
        let m = SharedModel { draw: state_after(self.draw, candidates.len()), ..self };
        match chosen {
            None => (m, None),
            Some(b) => (SharedModel { health: m.health.after_claim(b, now), ..m }, Some(b)),
        }
    }

    /// A lease is handed back.
    pub open spec fn releases(self, lease: Lease) -> SharedModel {
        SharedModel {
            pool: self.pool.with(
                lease.backend,
                lease.key,
                self.pool.record(lease.backend, lease.key).released(),
            ),
            ..self
        }
    }

    /// A client stream that began at `started` is over: its gauge is closed, and
    /// what it cost recorded.
    pub open spec fn closes(self, started: u64, now: u64) -> SharedModel {
        SharedModel {
            stats: self.stats.stream_closed().observing(elapsed(now, started)),
            ..self
        }
    }

    /// A client stream is over: its slot is freed, its gauge closed, and what it
    /// cost recorded.
    pub open spec fn finishes(self, r: ProxyRouteModel, now: u64) -> SharedModel {
        self.releases(r.lease).closes(r.started, now)
    }

    /// Client streams are over, one after another.
    pub open spec fn finishes_all(self, routes: Seq<ProxyRouteModel>, now: u64) -> SharedModel
        decreases routes.len(),
    {
        if routes.len() == 0 {
            self
        } else {
            self.finishes_all(routes.drop_last(), now).finishes(routes.last(), now)
        }
    }
}

impl Shared {
    /// The invariant between two calls: the parts hold together, and admission
    /// steers towards the limit the deployment was tuned to.
    pub open spec fn wf(self) -> bool {
        &&& self.pool.wf()
        &&& self.health.wf()
        &&& self.admission.ceiling == self.tuning.max_concurrent_streams
    }

    /// The shared half of a proxy for `backends`.
    pub fn new(backends: Vec<Backend>, max_conns_per_backend: usize) -> (s: Self)
        ensures
            s.wf(),
            s.backends == backends,
            s.stats.fresh(),
            s.tuning == default_tuning(),
            s.balancer.state == 0x2545_f491_4f6c_dd1du64,
            s.admission == Admission::opening(crate::conn::MAX_CONCURRENT_STREAMS),
            s.health@ == (HealthModel {
                backends: Map::empty(),
                policy: crate::health::default_policy(),
                ejections: 0,
            }),
            s.pool@.backends =~= Map::<Backend, Seq<UpstreamRecord>>::empty(),
            s.pool@.max_conns == (if max_conns_per_backend == 0 {
                1
            } else {
                max_conns_per_backend
            }),
            s.pool@.idle_timeout_ms == crate::health::default_policy().idle_timeout / 1_000_000,
    {
        Self::with_policy(backends, max_conns_per_backend, Policy::default())
    }

    /// With an explicit health policy.
    pub fn with_policy(
        backends: Vec<Backend>,
        max_conns_per_backend: usize,
        policy: Policy,
    ) -> (s: Self)
        ensures
            s.wf(),
            s.backends == backends,
            s.stats.fresh(),
            s.tuning == default_tuning(),
            s.balancer.state == 0x2545_f491_4f6c_dd1du64,
            s.admission == Admission::opening(crate::conn::MAX_CONCURRENT_STREAMS),
            s.health@ == (HealthModel { backends: Map::empty(), policy, ejections: 0 }),
            s.pool@.backends =~= Map::<Backend, Seq<UpstreamRecord>>::empty(),
            s.pool@.max_conns == (if max_conns_per_backend == 0 {
                1
            } else {
                max_conns_per_backend
            }),
            s.pool@.idle_timeout_ms == policy.idle_timeout / 1_000_000,
    {
        Self::with_tuning(backends, max_conns_per_backend, policy, Tuning::default())
    }

    /// With tuned flow-control sizes as well.
    pub fn with_tuning(
        backends: Vec<Backend>,
        max_conns_per_backend: usize,
        policy: Policy,
        tuning: Tuning,
    ) -> (s: Self)
        ensures
            s.wf(),
            s.backends == backends,
            s.stats.fresh(),
            s.tuning == tuning,
            s.balancer.state == 0x2545_f491_4f6c_dd1du64,
            s.admission == Admission::opening(tuning.max_concurrent_streams),
            s.health@ == (HealthModel { backends: Map::empty(), policy, ejections: 0 }),
            s.pool@.backends =~= Map::<Backend, Seq<UpstreamRecord>>::empty(),
            s.pool@.max_conns == (if max_conns_per_backend == 0 {
                1
            } else {
                max_conns_per_backend
            }),
            s.pool@.idle_timeout_ms == policy.idle_timeout / 1_000_000,
    {
        Shared {
            pool: Pool::with_policy(max_conns_per_backend, &policy),
            backends,
            balancer: PowerOfTwoChoices::new(),
            stats: ProxyStats::default(),
            health: Health::new(policy),
            admission: Admission::new(tuning.max_concurrent_streams),
            tuning,
        }
    }

    /// Recomputes what one client connection may open, and returns it.
    pub fn recompute_admission(&mut self) -> (advertised: u32)
        requires
            old(self).wf(),
            old(self).admission.steerable(old(self).stats.client_conns),
        ensures
            final(self).wf(),
            final(self)@ == (SharedModel {
                admission: old(self).admission.after_sample(
                    old(self).stats.client_conns,
                    old(self).stats.shed,
                    old(self).pool@.near_shed_limit,
                ),
                ..old(self)@
            }),
            advertised == final(self).admission.advertised,
    {
        let near = self.pool.near_shed_limit();
        let conns = self.stats.client_conns();
        let shed = self.stats.shed_total();
        self.admission.sample(conns, shed, near)
    }

    /// What one client connection is currently told, for the gauge.
    pub fn admission_advertised(&self) -> (n: u32)
        ensures
            n == self.admission.advertised,
    {
        self.admission.advertised
    }

    /// The total the loop is currently steering, for the gauge.
    pub fn admit_total(&self) -> (n: u64)
        ensures
            n == self.admission.admit_total,
    {
        self.admission.admit_total
    }

    /// Picks a backend to try, excluding one already attempted for this request
    /// where that leaves a choice.
    pub fn pick(&mut self, exclude: Option<Backend>, now: u64) -> (r: Option<Backend>)
        requires
            old(self).wf(),
        ensures
            final(self).wf(),
            final(self)@ == old(self)@.picks(exclude, now).0,
            r == old(self)@.picks(exclude, now).1,
    {
        let load = self.pool.load(&self.backends);
        let mut eligible = self.health.eligible(&load, now);
        if let Some(failed) = exclude {
            let mut other: Vec<BackendLoad> = Vec::new();
            let mut i: usize = 0;
            assert(eligible@.take(0) =~= Seq::empty());
            while i < eligible.len()
                invariant
                    i <= eligible@.len(),
                    other@ == elsewhere(eligible@.take(i as int), failed),
                decreases eligible@.len() - i,
            {
                assert(eligible@.take(i + 1).drop_last() =~= eligible@.take(i as int));
                if eligible[i].backend != failed {
                    other.push(eligible[i]);
                }
                i += 1;
            }
            assert(eligible@.take(i as int) =~= eligible@);
            if other.len() != 0 {
                eligible = other;
            }
        }
        let chosen = self.balancer.pick(&eligible);
        // Claim the probe slot only now that a backend has really been chosen.
        if let Some(b) = chosen {
            self.health.claim_trial(&b, now);
        }
        chosen
    }
}

// ---------------------------------------------------------------------------
// One client connection
// ---------------------------------------------------------------------------

/// One client stream's upstream leg.
#[derive(Debug)]
pub struct ProxyRoute {
    /// The client stream.
    pub id: u32,
    pub lease: Lease,
    /// Whether the request has ended, so a late body chunk is dropped.
    pub request_done: bool,
    /// Which backend this attempt went to.
    pub backend: Backend,
    /// The request head, kept only when this request could be retried: one
    /// whose HEADERS carried END_STREAM, so there is nothing to replay but the
    /// head itself.
    pub head: Option<Box<RequestHead>>,
    /// Attempts made so far, including the one in flight.
    pub attempts: u8,
    /// Whether a `:status` has reached the client. Once it has, no failure can
    /// be replaced by a retry.
    pub response_started: bool,
    /// Whether the backend failed this attempt. An answer that follows was made
    /// in its place, and proves nothing of it.
    pub faulted: bool,
    /// When the client's request arrived. A retry keeps the original instant.
    pub started: u64,
}

/// What a route holds.
#[verifier::ext_equal]
pub struct ProxyRouteModel {
    pub id: u32,
    pub lease: Lease,
    pub request_done: bool,
    pub backend: Backend,
    pub head: Option<RequestModel>,
    pub attempts: u8,
    pub response_started: bool,
    pub faulted: bool,
    pub started: u64,
}

/// A kept head.
pub open spec fn head_view(head: Option<Box<RequestHead>>) -> Option<RequestModel> {
    match head {
        Some(h) => Some(h@),
        None => None,
    }
}

impl View for ProxyRoute {
    type V = ProxyRouteModel;

    open spec fn view(&self) -> ProxyRouteModel {
        ProxyRouteModel {
            id: self.id,
            lease: self.lease,
            request_done: self.request_done,
            backend: self.backend,
            head: head_view(self.head),
            attempts: self.attempts,
            response_started: self.response_started,
            faulted: self.faulted,
            started: self.started,
        }
    }
}

/// The routes of a list.
pub open spec fn proxy_routes_view(routes: Seq<ProxyRoute>) -> Seq<ProxyRouteModel> {
    Seq::new(routes.len(), |i: int| routes[i]@)
}

/// Where a stream's route is; the number of routes if it has none.
pub open spec fn stream_at(routes: Seq<ProxyRouteModel>, id: u32) -> nat
    decreases routes.len(),
{
    if routes.len() == 0 {
        0
    } else {
        let i = stream_at(routes.drop_last(), id);
        if i < routes.len() - 1 {
            i
        } else if routes.last().id == id {
            (routes.len() - 1) as nat
        } else {
            routes.len()
        }
    }
}

/// What an attempt carries until it is known whether it was sent.
#[derive(Debug)]
pub struct Ticket {
    pub id: StreamId,
    pub end_stream: bool,
    /// The copy kept for a possible retry; `None` makes this attempt final.
    pub spare: Option<Box<RequestHead>>,
    pub attempts: u8,
    /// When the stream began, when this is a retry.
    pub carry: Option<u64>,
}

/// What a ticket says.
#[verifier::ext_equal]
pub struct TicketModel {
    pub id: u32,
    pub end_stream: bool,
    pub spare: Option<RequestModel>,
    pub attempts: u8,
    pub carry: Option<u64>,
}

impl View for Ticket {
    type V = TicketModel;

    open spec fn view(&self) -> TicketModel {
        TicketModel {
            id: self.id.value(),
            end_stream: self.end_stream,
            spare: head_view(self.spare),
            attempts: self.attempts,
            carry: self.carry,
        }
    }
}

/// A request on its way: the lease, the message to send to its connection, and
/// what to hand to [`Proxy::settle`] with the outcome.
#[derive(Debug)]
pub struct Placed {
    pub lease: Lease,
    pub msg: ToUpstream,
    pub ticket: Ticket,
}

/// What is on its way.
#[verifier::ext_equal]
pub struct PlacedModel {
    pub lease: Lease,
    pub msg: MessageModel,
    pub ticket: TicketModel,
}

impl View for Placed {
    type V = PlacedModel;

    open spec fn view(&self) -> PlacedModel {
        PlacedModel { lease: self.lease, msg: self.msg@, ticket: self.ticket@ }
    }
}

/// What may be on its way.
pub open spec fn placed_view(p: Option<Placed>) -> Option<PlacedModel> {
    match p {
        Some(p) => Some(p@),
        None => None,
    }
}

/// A message that may be on its way.
pub open spec fn message_view(p: Option<(Lease, ToUpstream)>) -> Option<(Lease, MessageModel)> {
    match p {
        Some((lease, msg)) => Some((lease, msg@)),
        None => None,
    }
}

/// The request path, as one client connection sees it.
#[derive(Debug)]
pub struct Proxy {
    /// What upstream connections call this client connection.
    client: u64,
    routes: Vec<ProxyRoute>,
    /// The client's address, for `x-forwarded-for`.
    peer: Option<String>,
    /// Whether to believe a client-supplied `x-forwarded-for` and append to it.
    trust_forwarded: bool,
}

/// What one client connection holds.
#[verifier::ext_equal]
pub struct ProxyModel {
    pub client: u64,
    pub routes: Seq<ProxyRouteModel>,
    pub peer: Option<Seq<char>>,
    pub trust: bool,
}

impl View for Proxy {
    type V = ProxyModel;

    closed spec fn view(&self) -> ProxyModel {
        ProxyModel {
            client: self.client,
            routes: proxy_routes_view(self.routes@),
            peer: match self.peer {
                Some(p) => Some(p@),
                None => None,
            },
            trust: self.trust_forwarded,
        }
    }
}

/// One attempt at forwarding a request.
#[verifier::ext_equal]
pub struct AttemptModel {
    pub head: RequestModel,
    pub end_stream: bool,
    pub spare: Option<RequestModel>,
    /// A backend not to choose: the one that just failed.
    pub exclude: Option<Backend>,
    pub attempts: u8,
    pub carry: Option<u64>,
}

/// The answer to a request that no backend gets.
pub open spec fn local_answer(id: u32, status: u16) -> EventModel {
    EventModel::Head { id, response: bare(status), end_stream: true }
}

impl ProxyModel {
    /// The route of a stream.
    pub open spec fn route(self, id: u32) -> Option<ProxyRouteModel> {
        let i = stream_at(self.routes, id);
        if i < self.routes.len() {
            Some(self.routes[i as int])
        } else {
            None
        }
    }

    /// The connection without a stream's route.
    pub open spec fn dropping(self, id: u32) -> ProxyModel {
        let i = stream_at(self.routes, id);
        if i < self.routes.len() {
            ProxyModel { routes: self.routes.remove(i as int), ..self }
        } else {
            self
        }
    }

    /// The connection with a stream's route set.
    pub open spec fn routing(self, r: ProxyRouteModel) -> ProxyModel {
        let i = stream_at(self.routes, r.id);
        if i < self.routes.len() {
            ProxyModel { routes: self.routes.update(i as int, r), ..self }
        } else {
            ProxyModel { routes: self.routes.push(r), ..self }
        }
    }

    /// An attempt is placed: a backend picked, a slot leased, and the request
    /// to send. `None` where there is no backend to try, which is answered
    /// with 503.
    pub open spec fn places(
        self,
        shared: SharedModel,
        id: u32,
        a: AttemptModel,
        now: u64,
    ) -> (SharedModel, Option<PlacedModel>) {
        let (m, chosen) = shared.picks(a.exclude, now);
        match chosen {
            None => (m, None),
            Some(b) => {
                let (pool, lease) = m.pool.after_checkout(b, millis(now));
                (
                    SharedModel { pool, ..m },
                    Some(
                        PlacedModel {
                            lease,
                            msg: MessageModel::Request {
                                id: lease.id.0,
                                client_id: id,
                                client: self.client,
                                head: a.head,
                                end_stream: a.end_stream,
                            },
                            ticket: TicketModel {
                                id,
                                end_stream: a.end_stream,
                                spare: a.spare,
                                attempts: a.attempts,
                                carry: a.carry,
                            },
                        },
                    ),
                )
            },
        }
    }

    /// The first attempt at a request.
    pub open spec fn first_attempt(self, head: RequestModel, end_stream: bool) -> AttemptModel {
        let head = forwarded(sanitized(head), self.peer, self.trust);
        AttemptModel {
            head,
            end_stream,
            spare: if end_stream && idempotent(head.method) {
                Some(head)
            } else {
                None
            },
            exclude: None,
            attempts: 1,
            carry: None,
        }
    }

    /// A route whose request may be tried again: nothing has reached the
    /// client, the request can be replayed, and it has not been already.
    pub open spec fn may_retry(r: ProxyRouteModel) -> bool {
        !r.response_started && r.attempts < MAX_ATTEMPTS && r.head is Some
    }

    /// The second attempt at a request.
    pub open spec fn second_attempt(r: ProxyRouteModel) -> AttemptModel {
        AttemptModel {
            head: r.head->0,
            end_stream: true,
            spare: r.head,
            exclude: Some(r.backend),
            attempts: (r.attempts + 1) as u8,
            carry: Some(r.started),
        }
    }
}

/// The shared state with a second attempt counted.
pub open spec fn retry_counted(shared: SharedModel) -> SharedModel {
    SharedModel {
        stats: StatsModel { retries: shared.stats.retries.wrapping_add(1), ..shared.stats },
        ..shared
    }
}

/// The shared state with a request counted, and a client stream where it is the
/// first attempt.
pub open spec fn request_counted(shared: SharedModel, first: bool) -> SharedModel {
    let stats = StatsModel { requests: shared.stats.requests.wrapping_add(1), ..shared.stats };
    SharedModel {
        stats: if first {
            stats.stream_opened()
        } else {
            stats
        },
        ..shared
    }
}

/// The shared state with a failure of a backend noted.
pub open spec fn failure_noted(shared: SharedModel, b: Backend, now: u64) -> SharedModel {
    SharedModel { health: shared.health.after_failure(b, now), ..shared }
}

/// What a step of one client connection leads to: the connection and the shared
/// state after it, what its clients hear at once, the event that is passed on,
/// and the attempt that is on its way.
#[verifier::ext_equal]
pub struct Watched {
    pub proxy: ProxyModel,
    pub shared: SharedModel,
    pub events: Seq<EventModel>,
    pub passed: Option<EventModel>,
    pub placed: Option<PlacedModel>,
}

/// A failed stream is tried again: its route and its slot are given up, and a
/// second attempt placed. Where no backend is found for it, the client is
/// answered with 503 and its stream is over.
pub open spec fn retried(p: ProxyModel, shared: SharedModel, id: u32, now: u64) -> Watched {
    let r = p.route(id)->0;
    let q = p.dropping(id);
    let (after, placed) = q.places(
        retry_counted(shared.releases(r.lease)),
        id,
        ProxyModel::second_attempt(r),
        now,
    );
    Watched {
        proxy: q,
        shared: if placed is None {
            after.closes(r.started, now)
        } else {
            after
        },
        events: if placed is None {
            seq![local_answer(id, 503)]
        } else {
            Seq::empty()
        },
        passed: None,
        placed,
    }
}

/// A failure whose request may be tried again is replaced by the second attempt;
/// any other goes on to the client.
pub open spec fn retry_or_pass(
    event: EventModel,
    p: ProxyModel,
    shared: SharedModel,
    id: u32,
    now: u64,
) -> Watched {
    if ProxyModel::may_retry(p.route(id)->0) {
        retried(p, shared, id, now)
    } else {
        unchanged(event, p, shared)
    }
}

/// The event goes on to the client.
pub open spec fn unchanged(event: EventModel, p: ProxyModel, shared: SharedModel) -> Watched {
    Watched { proxy: p, shared, events: Seq::empty(), passed: Some(event), placed: None }
}

/// A failure of the backend behind a stream counts against it, and the stream
/// remembers it.
pub open spec fn blamed(
    p: ProxyModel,
    shared: SharedModel,
    id: u32,
    now: u64,
) -> (ProxyModel, SharedModel) {
    match p.route(id) {
        Some(r) => (
            p.routing(ProxyRouteModel { faulted: true, ..r }),
            failure_noted(shared, r.backend, now),
        ),
        None => (p, shared),
    }
}

/// What interception makes of an event.
pub open spec fn watched(
    event: EventModel,
    p: ProxyModel,
    shared: SharedModel,
    now: u64,
) -> Watched {
    match event {
        // Anything a backend answers at all proves it is there, unless the
        // answer was made in its place; and once a status is on the wire no
        // later failure can be retried.
        EventModel::Head { id, response, .. } => {
            let counted = SharedModel {
                stats: shared.stats.answered(response.status),
                ..shared
            };
            match p.route(id) {
                Some(r) => unchanged(
                    event,
                    p.routing(ProxyRouteModel { response_started: true, ..r }),
                    if r.faulted {
                        counted
                    } else {
                        SharedModel { health: counted.health.after_success(r.backend), ..counted }
                    },
                ),
                None => unchanged(event, p, counted),
            }
        },
        // The connection died: the one signal that says the backend is not
        // reachable.
        EventModel::Gone { id } => match p.route(id) {
            Some(r) => retry_or_pass(event, p, failure_noted(shared, r.backend, now), id, now),
            None => unchanged(event, p, shared),
        },
        // No backend was asked.
        EventModel::Shed { id } => match p.route(id) {
            Some(r) => {
                let m = shared.releases(r.lease);
                unchanged(
                    event,
                    p.dropping(id),
                    SharedModel { stats: m.stats.stream_closed(), ..m },
                )
            },
            None => unchanged(event, p, shared),
        },
        // REFUSED_STREAM promises that nothing was processed. Any other reset
        // may well have run the request. None of them says that the backend is
        // unwell.
        EventModel::Reset { id, code } => if p.route(id) is Some && code
            == ErrorCode::RefusedStream {
            retry_or_pass(event, p, shared, id, now)
        } else {
            unchanged(event, p, shared)
        },
        _ => unchanged(event, p, shared),
    }
}

/// One attempt at forwarding a request.
struct Attempt {
    head: Box<RequestHead>,
    end_stream: bool,
    spare: Option<Box<RequestHead>>,
    exclude: Option<Backend>,
    attempts: u8,
    carry: Option<u64>,
}

impl View for Attempt {
    type V = AttemptModel;

    closed spec fn view(&self) -> AttemptModel {
        AttemptModel {
            head: self.head@,
            end_stream: self.end_stream,
            spare: head_view(self.spare),
            exclude: self.exclude,
            attempts: self.attempts,
            carry: self.carry,
        }
    }
}

/// Puts an event at the end of a list.
fn push_event(events: &mut Vec<ServiceEvent>, event: ServiceEvent)
    ensures
        events_view(final(events)@) == events_view(old(events)@).push(event@),
{
    proof {
        lemma_events_push(events@, event);
    }
    events.push(event);
}

impl Proxy {
    /// The request path of the client connection that upstream connections call
    /// `client`.
    pub fn new(client: u64, shared: &mut Shared) -> (p: Self)
        requires
            old(shared).wf(),
        ensures
            final(shared).wf(),
            final(shared)@ == (SharedModel {
                stats: (StatsModel {
                    client_conns: old(shared).stats.client_conns.wrapping_add(1),
                    ..old(shared).stats@
                }),
                ..old(shared)@
            }),
            p@ == (ProxyModel { client, routes: Seq::empty(), peer: None, trust: false }),
    {
        shared.stats.client_connected();
        let p = Proxy { client, routes: Vec::new(), peer: None, trust_forwarded: false };
        assert(p@.routes =~= Seq::empty());
        p
    }

    /// Names the client by its address, so requests carry `x-forwarded-for`.
    pub fn with_peer(self, peer: String) -> (p: Self)
        ensures
            p@ == (ProxyModel { peer: Some(peer@), ..self@ }),
    {
        let mut p = self;
        p.peer = Some(peer);
        p
    }

    /// Appends to a client-supplied `x-forwarded-for` instead of replacing it.
    ///
    /// Off by default: appending means any client can prepend whatever addresses
    /// it likes. Turn this on only when something trustworthy runs in front.
    pub fn trusting_forwarded_headers(self, trust: bool) -> (p: Self)
        ensures
            p@ == (ProxyModel { trust, ..self@ }),
    {
        let mut p = self;
        p.trust_forwarded = trust;
        p
    }

    /// Strips anything that describes the client hop rather than the request.
    pub fn sanitize(head: &mut RequestHead)
        ensures
            final(head)@ == sanitized(old(head)@),
    {
        sanitize(head);
    }

    /// Tells the backend who the client is and how it reached us.
    pub fn add_forwarded(&self, head: &mut RequestHead)
        ensures
            final(head)@ == forwarded(old(head)@, self@.peer, self@.trust),
    {
        add_forwarded(head, &self.peer, self.trust_forwarded);
    }

    /// Answers a request ourselves, without a backend.
    ///
    /// The rule across the proxy: 503 means we had no backend to try, 502 means
    /// we tried one and it let us down.
    fn answer_locally(id: StreamId, status: u16, events: &mut Vec<ServiceEvent>)
        ensures
            events_view(final(events)@) == events_view(old(events)@).push(
                local_answer(id.value(), status),
            ),
    {
        push_event(
            events,
            ServiceEvent::Head { id, response: Response::status(status), end_stream: true },
        );
    }

    /// Where a stream's route is; the number of routes if it has none.
    fn find(&self, id: u32) -> (i: usize)
        ensures
            i == stream_at(self@.routes, id),
            i <= self.routes@.len(),
            self@.routes.len() == self.routes@.len(),
    {
        let ghost all = proxy_routes_view(self.routes@);
        let mut i: usize = 0;
        assert(all.take(0) =~= Seq::empty());
        while i < self.routes.len()
            invariant
                all == proxy_routes_view(self.routes@),
                i <= self.routes@.len(),
                stream_at(all.take(i as int), id) == i,
            decreases self.routes@.len() - i,
        {
            assert(all.take(i + 1).drop_last() =~= all.take(i as int));
            if self.routes[i].id == id {
                proof {
                    lemma_stream_found(all, id, i + 1);
                }
                return i;
            }
            i += 1;
        }
        assert(all.take(i as int) =~= all);
        i
    }

    /// Picks a backend, leases a slot, and hands out the request to send.
    fn attempt(
        &self,
        shared: &mut Shared,
        id: StreamId,
        attempt: Attempt,
        now: u64,
        events: &mut Vec<ServiceEvent>,
    ) -> (r: Option<Placed>)
        requires
            old(shared).wf(),
        ensures
            final(shared).wf(),
            final(shared)@ == self@.places(old(shared)@, id.value(), attempt@, now).0,
            placed_view(r) == self@.places(old(shared)@, id.value(), attempt@, now).1,
            events_view(final(events)@) == (if r is None {
                events_view(old(events)@).push(local_answer(id.value(), 503))
            } else {
                events_view(old(events)@)
            }),
    {
        let Attempt { head, end_stream, spare, exclude, attempts, carry } = attempt;
        let backend = match shared.pick(exclude, now) {
            Some(backend) => backend,
            None => {
                Self::answer_locally(id, 503, events);
                return None;
            },
        };
        let lease = match shared.pool.checkout(&backend, now / 1_000_000) {
            Ok(lease) => lease,
            Err(_) => {
                // We never reached a backend, so this says nothing about its
                // health.
                Self::answer_locally(id, 503, events);
                return None;
            },
        };
        Some(
            Placed {
                lease,
                msg: ToUpstream::Request {
                    id: lease.id,
                    client_id: id,
                    head,
                    end_stream,
                    client: self.client,
                },
                ticket: Ticket { id, end_stream, spare, attempts, carry },
            },
        )
    }

    /// What became of a request that was handed out: it reached its connection,
    /// or the connection was gone, which is evidence about the backend. The
    /// client is then answered with 503; where that was the second attempt, its
    /// stream had begun and is over.
    pub fn settle(
        &mut self,
        shared: &mut Shared,
        ticket: Ticket,
        lease: Lease,
        delivered: bool,
        now: u64,
        events: &mut Vec<ServiceEvent>,
    )
        requires
            old(shared).wf(),
        ensures
            final(shared).wf(),
            !delivered ==> {
                &&& final(self)@ == old(self)@
                &&& final(shared)@ == ({
                    let noted = failure_noted(
                        old(shared)@.releases(lease),
                        lease.backend,
                        now,
                    );
                    match ticket.carry {
                        Some(at) => noted.closes(at, now),
                        None => noted,
                    }
                })
                &&& events_view(final(events)@) == events_view(old(events)@).push(
                    local_answer(ticket.id.value(), 503),
                )
            },
            delivered ==> {
                &&& final(self)@ == old(self)@.routing(
                    (ProxyRouteModel {
                        id: ticket.id.value(),
                        lease,
                        request_done: ticket.end_stream,
                        backend: lease.backend,
                        head: ticket@.spare,
                        attempts: ticket.attempts,
                        response_started: false,
                        faulted: false,
                        started: match ticket.carry {
                            Some(at) => at,
                            None => now,
                        },
                    }),
                )
                &&& final(shared)@ == request_counted(old(shared)@, ticket.carry is None)
                &&& final(events)@ == old(events)@
            },
    {
        if !delivered {
            shared.pool.release(&lease);
            shared.health.failure(&lease.backend, now);
            if let Some(started) = ticket.carry {
                Self::closed(shared, started, now);
            }
            Self::answer_locally(ticket.id, 503, events);
            return;
        }
        shared.stats.request();
        let started: u64 = match ticket.carry {
            Some(at) => at,
            None => {
                shared.stats.open_client_stream();
                now
            },
        };
        let route = ProxyRoute {
            id: ticket.id.get(),
            lease,
            request_done: ticket.end_stream,
            backend: lease.backend,
            head: ticket.spare,
            attempts: ticket.attempts,
            response_started: false,
            faulted: false,
            started,
        };
        let ghost r = route@;
        let i = self.find(ticket.id.get());
        let ghost before = self.routes@;
        if i < self.routes.len() {
            self.routes.set(i, route);
            assert(proxy_routes_view(self.routes@) =~= proxy_routes_view(before).update(
                i as int,
                r,
            ));
        } else {
            self.routes.push(route);
            assert(proxy_routes_view(self.routes@) =~= proxy_routes_view(before).push(r));
        }
    }

    /// Takes a stream's route out.
    fn take_route(&mut self, id: u32) -> (r: Option<ProxyRoute>)
        ensures
            final(self)@ == old(self)@.dropping(id),
            match r {
                Some(route) => old(self)@.route(id) == Some(route@),
                None => old(self)@.route(id) is None,
            },
    {
        let i = self.find(id);
        if i < self.routes.len() {
            let ghost before = self.routes@;
            let route = self.routes.remove(i);
            assert(proxy_routes_view(self.routes@) =~= proxy_routes_view(before).remove(i as int));
            Some(route)
        } else {
            None
        }
    }

    /// A stream is over, however it ended: its slot is freed, its gauge closed,
    /// and what it cost recorded.
    fn finished(shared: &mut Shared, route: &ProxyRoute, now: u64)
        requires
            old(shared).wf(),
        ensures
            final(shared).wf(),
            final(shared)@ == old(shared)@.finishes(route@, now),
    {
        shared.pool.release(&route.lease);
        Self::closed(shared, route.started, now);
    }

    /// A stream that began at `started` is over: its gauge is closed, and what
    /// it cost recorded.
    fn closed(shared: &mut Shared, started: u64, now: u64)
        requires
            old(shared).wf(),
        ensures
            final(shared).wf(),
            final(shared)@ == old(shared)@.closes(started, now),
    {
        shared.stats.close_client_stream();
        shared.stats.observe_latency(now.saturating_sub(started));
    }

    /// Tries a stream again on a different backend, if it is safe to. `true`
    /// when the failure is not the client's to hear.
    fn retry(
        &mut self,
        shared: &mut Shared,
        id: StreamId,
        now: u64,
        events: &mut Vec<ServiceEvent>,
    ) -> (r: (bool, Option<Placed>))
        requires
            old(shared).wf(),
            old(self)@.route(id.value()) is Some,
        ensures
            final(shared).wf(),
            r.0 == ProxyModel::may_retry(old(self)@.route(id.value())->0),
            !r.0 ==> {
                &&& final(self)@ == old(self)@
                &&& final(shared)@ == old(shared)@
                &&& final(events)@ == old(events)@
                &&& r.1 is None
            },
            r.0 ==> {
                let w = retried(old(self)@, old(shared)@, id.value(), now);
                &&& final(self)@ == w.proxy
                &&& final(shared)@ == w.shared
                &&& placed_view(r.1) == w.placed
                &&& events_view(final(events)@) == events_view(old(events)@) + w.events
            },
    {
        let i = self.find(id.get());
        let refused = self.routes[i].response_started || self.routes[i].attempts >= MAX_ATTEMPTS
            || self.routes[i].head.is_none();
        if refused {
            return (false, None);
        }
        // Take the route out before the new checkout: otherwise a retry can be
        // refused by the slot its own failed attempt is still holding.
        let route = match self.take_route(id.get()) {
            Some(route) => route,
            None => return (false, None),
        };
        let ProxyRoute { lease, backend, head, attempts, started, .. } = route;
        let head = match head {
            Some(head) => head,
            None => return (false, None),
        };
        shared.pool.release(&lease);
        shared.stats.retry();
        let copy: RequestHead = (*head).clone();
        let next = Attempt {
            head: Box::new(copy),
            end_stream: true,
            spare: Some(head),
            exclude: Some(backend),
            attempts: attempts + 1,
            carry: Some(started),
        };
        assert(next@ == ProxyModel::second_attempt(old(self)@.route(id.value())->0));
        let placed = self.attempt(shared, id, next, now, events);
        if placed.is_none() {
            Self::closed(shared, started, now);
        }
        assert(events_view(events@) =~= events_view(old(events)@) + retried(
            old(self)@,
            old(shared)@,
            id.value(),
            now,
        ).events);
        (true, placed)
    }

    /// A complete, validated request head arrived on `id`. Hands out the request
    /// to send, or answers it with 503 where there is no backend to try.
    pub fn dispatch(
        &mut self,
        shared: &mut Shared,
        id: StreamId,
        head: RequestHead,
        end_stream: bool,
        now: u64,
        events: &mut Vec<ServiceEvent>,
    ) -> (r: Option<Placed>)
        requires
            old(shared).wf(),
        ensures
            final(shared).wf(),
            final(self)@ == old(self)@,
            ({
                let a = old(self)@.first_attempt(head@, end_stream);
                let (s, placed) = old(self)@.places(old(shared)@, id.value(), a, now);
                &&& final(shared)@ == s
                &&& placed_view(r) == placed
                &&& events_view(final(events)@) == (if placed is None {
                    events_view(old(events)@).push(local_answer(id.value(), 503))
                } else {
                    events_view(old(events)@)
                })
            }),
    {
        let mut head = head;
        sanitize(&mut head);
        add_forwarded(&mut head, &self.peer, self.trust_forwarded);
        // Kept only if it could ever be replayed.
        let spare = if end_stream && is_idempotent(as_slice(&head.method)) {
            let copy: RequestHead = head.clone();
            Some(Box::new(copy))
        } else {
            None
        };
        let attempt = Attempt {
            head: Box::new(head),
            end_stream,
            spare,
            exclude: None,
            attempts: 1,
            carry: None,
        };
        self.attempt(shared, id, attempt, now, events)
    }

    /// Request body octets. Hands out the message to send; octets with no
    /// upstream to take them give their credit back at once, or the client's
    /// window shrinks for the rest of the connection.
    pub fn body(
        &mut self,
        id: StreamId,
        data: Bytes,
        end_stream: bool,
        events: &mut Vec<ServiceEvent>,
    ) -> (r: Option<(Lease, ToUpstream)>)
        ensures
            match old(self)@.route(id.value()) {
                None => {
                    &&& final(self)@ == old(self)@
                    &&& r is None
                    &&& events_view(final(events)@) == credit_returned(
                        events_view(old(events)@),
                        id.value(),
                        octets(data).len() as u32,
                    )
                },
                Some(route) => {
                    &&& final(events)@ == old(events)@
                    &&& route.request_done ==> r is None && final(self)@ == old(self)@
                    &&& !route.request_done ==> {
                        &&& final(self)@ == old(self)@.routing(
                            (ProxyRouteModel { request_done: end_stream, ..route }),
                        )
                        &&& message_view(r) == Some(
                            (
                                route.lease,
                                MessageModel::Body {
                                    id: route.lease.id.0,
                                    data: octets(data),
                                    end_stream,
                                },
                            ),
                        )
                    }
                },
            },
    {
        let i = self.find(id.get());
        if i >= self.routes.len() {
            Self::return_credit(id, data.len() as u32, events);
            return None;
        }
        if self.routes[i].request_done {
            return None;
        }
        let lease = self.routes[i].lease;
        let ghost before = self.routes@;
        let route = &mut self.routes[i];
        route.request_done = end_stream;
        proof {
            lemma_stream_id(proxy_routes_view(before), id.value());
            assert(proxy_routes_view(self.routes@) =~= proxy_routes_view(before).update(
                i as int,
                self.routes@[i as int]@,
            ));
        }
        Some((lease, ToUpstream::Body { id: lease.id, data, end_stream }))
    }

    /// Gives the client credit for octets that went nowhere.
    fn return_credit(id: StreamId, n: u32, events: &mut Vec<ServiceEvent>)
        ensures
            events_view(final(events)@) == credit_returned(
                events_view(old(events)@),
                id.value(),
                n,
            ),
    {
        if n > 0 {
            push_event(events, ServiceEvent::BodyAccepted { id, n });
        }
    }

    /// A body message of `n` octets did not reach its connection.
    pub fn undelivered_body(id: StreamId, n: u32, events: &mut Vec<ServiceEvent>)
        ensures
            events_view(final(events)@) == credit_returned(
                events_view(old(events)@),
                id.value(),
                n,
            ),
    {
        Self::return_credit(id, n, events);
    }

    /// A trailer section closed the request.
    pub fn trailers(&mut self, id: StreamId, fields: Vec<Header>) -> (r: Option<
        (Lease, ToUpstream),
    >)
        ensures
            match old(self)@.route(id.value()) {
                None => r is None && final(self)@ == old(self)@,
                Some(route) => {
                    &&& final(self)@ == old(self)@.routing(
                        (ProxyRouteModel { request_done: true, ..route }),
                    )
                    &&& message_view(r) == Some(
                        (
                            route.lease,
                            MessageModel::Trailers {
                                id: route.lease.id.0,
                                fields: headers_view(fields@),
                            },
                        ),
                    )
                },
            },
    {
        let i = self.find(id.get());
        if i >= self.routes.len() {
            return None;
        }
        let lease = self.routes[i].lease;
        let ghost before = self.routes@;
        let route = &mut self.routes[i];
        route.request_done = true;
        proof {
            lemma_stream_id(proxy_routes_view(before), id.value());
            assert(proxy_routes_view(self.routes@) =~= proxy_routes_view(before).update(
                i as int,
                self.routes@[i as int]@,
            ));
        }
        Some((lease, ToUpstream::Trailers { id: lease.id, fields }))
    }

    /// The client abandoned the stream: its slot is freed, and the message is
    /// what actually resets the upstream stream.
    pub fn cancel(&mut self, shared: &mut Shared, id: StreamId, code: ErrorCode, now: u64) -> (r:
        Option<(Lease, ToUpstream)>)
        requires
            old(shared).wf(),
        ensures
            final(shared).wf(),
            final(self)@ == old(self)@.dropping(id.value()),
            final(shared)@ == (match old(self)@.route(id.value()) {
                None => old(shared)@,
                Some(route) => old(shared)@.finishes(route, now),
            }),
            match old(self)@.route(id.value()) {
                None => r is None,
                Some(route) => message_view(r) == Some(
                    (route.lease, MessageModel::Cancel { id: route.lease.id.0, code }),
                ),
            },
    {
        match self.take_route(id.get()) {
            None => None,
            Some(route) => {
                Self::finished(shared, &route, now);
                Some((route.lease, ToUpstream::Cancel { id: route.lease.id, code }))
            },
        }
    }

    /// The stream completed normally. Nothing to tell the upstream: its stream
    /// ended too.
    pub fn finish(&mut self, shared: &mut Shared, id: StreamId, now: u64)
        requires
            old(shared).wf(),
        ensures
            final(shared).wf(),
            final(self)@ == old(self)@.dropping(id.value()),
            final(shared)@ == (match old(self)@.route(id.value()) {
                None => old(shared)@,
                Some(route) => old(shared)@.finishes(route, now),
            }),
    {
        match self.take_route(id.get()) {
            None => {},
            Some(route) => Self::finished(shared, &route, now),
        }
    }

    /// `n` octets of this stream's response were written to the client, which
    /// the upstream turns into the WINDOW_UPDATE it was withholding.
    pub fn released(&self, id: StreamId, n: u32) -> (r: Option<(Lease, ToUpstream)>)
        ensures
            match self@.route(id.value()) {
                None => r is None,
                Some(route) => message_view(r) == Some(
                    (route.lease, MessageModel::Released { id: route.lease.id.0, n }),
                ),
            },
    {
        let i = self.find(id.get());
        if i >= self.routes.len() {
            return None;
        }
        let lease = self.routes[i].lease;
        Some((lease, ToUpstream::Released { id: lease.id, n }))
    }

    /// Watches every outcome on its way to the client: reports it to health, and
    /// replaces it with a retry where that is safe. The event to pass on, if it
    /// is the client's to hear, and the second attempt to send, if there is one.
    pub fn intercept(
        &mut self,
        shared: &mut Shared,
        event: ServiceEvent,
        now: u64,
        events: &mut Vec<ServiceEvent>,
    ) -> (r: (Option<ServiceEvent>, Option<Placed>))
        requires
            old(shared).wf(),
        ensures
            final(shared).wf(),
            ({
                let w = watched(event@, old(self)@, old(shared)@, now);
                &&& final(self)@ == w.proxy
                &&& final(shared)@ == w.shared
                &&& events_view(final(events)@) == events_view(old(events)@) + w.events
                &&& w.passed == (match r.0 {
                    Some(e) => Some(e@),
                    None => None,
                })
                &&& placed_view(r.1) == w.placed
            }),
    {
        assert(events_view(events@) + Seq::<EventModel>::empty() =~= events_view(events@));
        match &event {
            ServiceEvent::Head { id, response, .. } => {
                let i = self.find(id.get());
                if i < self.routes.len() {
                    let backend = self.routes[i].backend;
                    let faulted = self.routes[i].faulted;
                    let ghost before = self.routes@;
                    // Once a status is on the wire no later failure can be
                    // retried.
                    let route = &mut self.routes[i];
                    route.response_started = true;
                    proof {
                        lemma_stream_id(proxy_routes_view(before), id.value());
                        assert(proxy_routes_view(self.routes@) =~= proxy_routes_view(
                            before,
                        ).update(i as int, self.routes@[i as int]@));
                    }
                    // Anything it answers at all proves the backend is there.
                    if !faulted {
                        shared.health.success(&backend);
                    }
                }
                shared.stats.response(response.status);
                (Some(event), None)
            },
            ServiceEvent::Gone { id } => {
                let i = self.find(id.get());
                if i >= self.routes.len() {
                    return (Some(event), None);
                }
                let backend = self.routes[i].backend;
                // The connection died rather than the backend answering.
                shared.health.failure(&backend, now);
                let (swallowed, placed) = self.retry(shared, *id, now, events);
                if swallowed {
                    (None, placed)
                } else {
                    (Some(event), None)
                }
            },
            ServiceEvent::Shed { id } => {
                // No backend was asked, so there is nothing to record against
                // one, and retrying is pointless.
                if let Some(route) = self.take_route(id.get()) {
                    shared.pool.release(&route.lease);
                    shared.stats.close_client_stream();
                }
                (Some(event), None)
            },
            ServiceEvent::Reset { id, code } => {
                let i = self.find(id.get());
                if i >= self.routes.len() {
                    return (Some(event), None);
                }
                // REFUSED_STREAM is a promise that nothing was processed, and the
                // only reset code that carries it. No reset is a health failure:
                // it is a considered answer about one request, and a backend
                // refusing a stream is usually busy or draining.
                if *code == ErrorCode::RefusedStream {
                    let (swallowed, placed) = self.retry(shared, *id, now, events);
                    if swallowed {
                        return (None, placed);
                    }
                }
                (Some(event), None)
            },
            _ => (Some(event), None),
        }
    }

    /// The backend failed the request of a stream: what it sent was no answer, or
    /// an answer was cut short. That counts against it, whatever its client is
    /// told next.
    pub fn blame(&mut self, shared: &mut Shared, id: StreamId, now: u64)
        requires
            old(shared).wf(),
        ensures
            final(shared).wf(),
            (final(self)@, final(shared)@) == blamed(
                old(self)@,
                old(shared)@,
                id.value(),
                now,
            ),
    {
        let i = self.find(id.get());
        if i < self.routes.len() {
            let backend = self.routes[i].backend;
            let ghost before = self.routes@;
            let route = &mut self.routes[i];
            route.faulted = true;
            proof {
                lemma_stream_id(proxy_routes_view(before), id.value());
                assert(proxy_routes_view(self.routes@) =~= proxy_routes_view(before).update(
                    i as int,
                    self.routes@[i as int]@,
                ));
            }
            shared.health.failure(&backend, now);
        }
    }

    /// The client connection ended: an ending for every stream still open on it.
    /// Upstream they run on.
    pub fn disconnect(&mut self, shared: &mut Shared, now: u64)
        requires
            old(shared).wf(),
        ensures
            final(shared).wf(),
            final(self)@ == (ProxyModel { routes: Seq::empty(), ..old(self)@ }),
            ({
                let m = old(shared)@.finishes_all(old(self)@.routes, now);
                final(shared)@ == (SharedModel {
                    stats: (StatsModel {
                        client_conns: m.stats.client_conns.wrapping_sub(1),
                        ..m.stats
                    }),
                    ..m
                })
            }),
    {
        let mut list: Vec<ProxyRoute> = Vec::new();
        std::mem::swap(&mut list, &mut self.routes);
        assert(self@ =~= (ProxyModel { routes: Seq::empty(), ..old(self)@ }));
        let ghost all = proxy_routes_view(list@);
        let mut i: usize = 0;
        assert(all.take(0) =~= Seq::empty());
        while i < list.len()
            invariant
                shared.wf(),
                all == proxy_routes_view(list@),
                i <= list@.len(),
                shared@ == old(shared)@.finishes_all(all.take(i as int), now),
            decreases list@.len() - i,
        {
            assert(all.take(i + 1).drop_last() =~= all.take(i as int));
            assert(all[i as int] == list@[i as int]@);
            Self::finished(shared, &list[i], now);
            i += 1;
        }
        assert(all.take(i as int) =~= all);
        shared.stats.client_disconnected();
    }
}

/// Credit for `n` octets that went nowhere, where there were any.
pub open spec fn credit_returned(events: Seq<EventModel>, id: u32, n: u32) -> Seq<EventModel> {
    if n > 0 {
        events.push(EventModel::BodyAccepted { id, n })
    } else {
        events
    }
}

/// A route found among the first is the one found among all.
proof fn lemma_stream_found(routes: Seq<ProxyRouteModel>, id: u32, k: int)
    requires
        0 <= k <= routes.len(),
        stream_at(routes.take(k), id) < k,
    ensures
        stream_at(routes, id) == stream_at(routes.take(k), id),
    decreases routes.len(),
{
    if k < routes.len() {
        assert(routes.drop_last().take(k) =~= routes.take(k));
        lemma_stream_found(routes.drop_last(), id, k);
    } else {
        assert(routes.take(k) =~= routes);
    }
}

/// A stream's route carries its id.
pub proof fn lemma_stream_id(routes: Seq<ProxyRouteModel>, id: u32)
    requires
        stream_at(routes, id) < routes.len(),
    ensures
        routes[stream_at(routes, id) as int].id == id,
    decreases routes.len(),
{
    if routes.len() > 0 && stream_at(routes.drop_last(), id) < routes.len() - 1 {
        lemma_stream_id(routes.drop_last(), id);
    }
}

} // verus!
