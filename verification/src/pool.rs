//! Upstream connection pool and coalescing.
//!
//! Keeps warm HTTP/2 connections per backend, opens more on demand, and retires
//! them on failure, idle timeout, or stream-id exhaustion. Coalescing is the
//! point: many client streams, arriving over many client connections, ride few
//! upstream ones.
//!
//! # A checkout never waits
//!
//! [`Pool::checkout`] returns a [`Lease`]: which connection, and which request on
//! it. The lease names a request, not a stream id, because §5.1.1 requires ids to
//! increase in the order they go on the wire, and two client connections leasing
//! from the same pooled connection have no ordering between them. And a
//! connection that does not exist yet can still be leased: the lease says when
//! one has to be opened, and requests queue behind it meanwhile.

use crate::health::Policy;
use crate::lb::{Backend, BackendLoad};
use crate::roster::Roster;
use crate::upstream::RequestId;
use vstd::prelude::*;

verus! {

/// How many concurrent streams to assume a backend allows before its SETTINGS
/// arrives. Conservative on purpose: guessing high would pile requests onto a
/// connection that then refuses them.
pub const ASSUMED_MAX_CONCURRENT: usize = 100;

/// Stop leasing from a connection this close to the end of the id space, so the
/// last few ids are never handed out in a race.
pub const ID_EXHAUSTION_MARGIN: u32 = 64;

/// How many requests a connection may carry over its life: one odd id each, less
/// the margin.
pub const MAX_REQUESTS: u32 = 1_073_741_759;

/// The budget of requests is half the id space, less the margin.
pub proof fn the_request_budget_is_half_the_id_space()
    ensures
        MAX_REQUESTS == crate::stream::MAX_LOCAL_STREAM_ID / 2 - ID_EXHAUSTION_MARGIN,
{
}

/// Why a pool checkout failed.
#[derive(Clone, Copy, PartialEq, Eq, Debug, Structural)]
pub enum PoolError {
    Unreachable(Backend),
    NoBackend,
}

/// One pooled upstream connection, as the pool sees it.
#[derive(Clone, Copy, PartialEq, Eq, Debug, Structural)]
pub struct UpstreamRecord {
    /// What the pool calls this connection. No two connections share one.
    pub key: u64,
    /// Streams in flight on this connection.
    pub live: usize,
    /// How many requests have been started on this connection. Each one costs
    /// exactly one stream id.
    pub issued: u32,
    /// The peer's `MAX_CONCURRENT_STREAMS`, learned at handshake.
    pub max_concurrent: usize,
    /// Set when the connection has gone or is going away.
    pub closed: bool,
    /// When a request was last leased onto it, in milliseconds.
    pub last_used_ms: u64,
}

/// A leased slot on an upstream connection: which connection, and which request
/// on it. Handing it back with [`Pool::release`] frees the slot.
#[derive(Clone, Copy, PartialEq, Eq, Debug, Structural)]
pub struct Lease {
    pub backend: Backend,
    /// Names the connection.
    pub key: u64,
    /// Names this request to the connection. Not a stream id.
    pub id: RequestId,
    /// The connection does not exist yet and is to be opened.
    pub opened: bool,
}

impl UpstreamRecord {
    /// A connection nothing has been leased on.
    pub open spec fn fresh(key: u64, now_ms: u64) -> UpstreamRecord {
        UpstreamRecord {
            key,
            live: 0,
            issued: 0,
            max_concurrent: ASSUMED_MAX_CONCURRENT,
            closed: false,
            last_used_ms: now_ms,
        }
    }

    /// Whether requests may still be leased onto it: not closed, not sitting
    /// idle and empty past the timeout, and not near the end of its ids.
    pub open spec fn is_usable(self, now_ms: u64, idle_timeout_ms: u64) -> bool {
        let idle = if now_ms < self.last_used_ms {
            0
        } else {
            now_ms - self.last_used_ms
        };
        &&& !(idle >= idle_timeout_ms && self.live == 0)
        &&& !self.closed
        &&& self.issued < MAX_REQUESTS
    }

    /// Whether the backend's limit leaves a slot.
    pub open spec fn roomy(self) -> bool {
        self.live < self.max_concurrent
    }

    /// The record with one more request on it.
    pub open spec fn leased(self, now_ms: u64) -> UpstreamRecord {
        UpstreamRecord {
            live: self.live.wrapping_add(1),
            issued: self.issued.wrapping_add(1),
            last_used_ms: now_ms,
            ..self
        }
    }

    /// The record with one request fewer in flight.
    pub open spec fn released(self) -> UpstreamRecord {
        UpstreamRecord {
            live: if self.live > 0 {
                (self.live - 1) as usize
            } else {
                0
            },
            ..self
        }
    }

    pub fn new(key: u64, now_ms: u64) -> (r: Self)
        ensures
            r == UpstreamRecord::fresh(key, now_ms),
    {
        UpstreamRecord {
            key,
            live: 0,
            issued: 0,
            max_concurrent: ASSUMED_MAX_CONCURRENT,
            closed: false,
            last_used_ms: now_ms,
        }
    }

    /// Whether requests may still be leased onto it.
    ///
    /// An idle connection is recycled rather than kept forever; one with a
    /// stream on it is not idle, however old. A connection that reaches the end
    /// of its ids is replaced rather than wrapped: ids are never reused.
    pub fn usable(&self, now_ms: u64, idle_timeout_ms: u64) -> (b: bool)
        ensures
            b == self.is_usable(now_ms, idle_timeout_ms),
    {
        let idle_ms = now_ms.saturating_sub(self.last_used_ms);
        let idle_and_empty = idle_ms >= idle_timeout_ms && self.live == 0;
        !idle_and_empty && !self.closed && self.issued < MAX_REQUESTS
    }

    /// Whether the backend's limit leaves a slot.
    pub fn has_room(&self) -> (b: bool)
        ensures
            b == self.roomy(),
    {
        self.live < self.max_concurrent
    }

    /// Claims a slot on this connection for one request.
    pub fn lease(&mut self, now_ms: u64) -> (id: RequestId)
        ensures
            *final(self) == old(self).leased(now_ms),
            id.0 == old(self).issued,
    {
        self.last_used_ms = now_ms;
        let request = self.issued;
        self.issued = self.issued.wrapping_add(1);
        self.live = self.live.wrapping_add(1);
        RequestId::new(request)
    }

    /// Frees a slot.
    pub fn release(&mut self)
        ensures
            *final(self) == old(self).released(),
    {
        self.live = self.live.saturating_sub(1);
    }

    /// Records the peer's `MAX_CONCURRENT_STREAMS` once its SETTINGS arrives.
    pub fn set_max_concurrent(&mut self, max: usize)
        ensures
            *final(self) == (UpstreamRecord { max_concurrent: max, ..*old(self) }),
    {
        self.max_concurrent = max;
    }

    /// Takes this connection out of rotation while it keeps running: it still
    /// serves the streams its backend promised to finish.
    pub fn retire(&mut self)
        ensures
            *final(self) == (UpstreamRecord { closed: true, ..*old(self) }),
    {
        self.closed = true;
    }
}

// ---------------------------------------------------------------------------
// Which connection
// ---------------------------------------------------------------------------

/// The connections that may still be leased from, in order.
pub open spec fn usable_only(
    conns: Seq<UpstreamRecord>,
    now_ms: u64,
    idle_timeout_ms: u64,
) -> Seq<UpstreamRecord>
    decreases conns.len(),
{
    if conns.len() == 0 {
        Seq::empty()
    } else {
        let init = usable_only(conns.drop_last(), now_ms, idle_timeout_ms);
        if conns.last().is_usable(now_ms, idle_timeout_ms) {
            init.push(conns.last())
        } else {
            init
        }
    }
}

/// The fullest connection that still has room; the last of equals.
pub open spec fn fullest(conns: Seq<UpstreamRecord>) -> Option<int>
    decreases conns.len(),
{
    if conns.len() == 0 {
        None
    } else {
        let best = fullest(conns.drop_last());
        if conns.last().roomy() && (best is None || conns.last().live >= conns[best->0].live) {
            Some(conns.len() - 1)
        } else {
            best
        }
    }
}

/// The least loaded connection; the first of equals.
pub open spec fn least_loaded(conns: Seq<UpstreamRecord>) -> int
    decreases conns.len(),
{
    if conns.len() <= 1 {
        0
    } else {
        let best = least_loaded(conns.drop_last());
        if conns.last().live < conns[best].live {
            conns.len() - 1
        } else {
            best
        }
    }
}

/// What a checkout from a backend's connections does: the connections after it,
/// where the lease is, and whether that connection is new.
///
/// The fullest connection with room is filled before another is opened: that is
/// what coalescing means. At the ceiling with every connection full, the least
/// loaded one takes the request and queues it: a saturated pool costs latency,
/// not errors.
pub open spec fn checked_out(
    conns: Seq<UpstreamRecord>,
    max_conns: usize,
    key: u64,
    now_ms: u64,
) -> (Seq<UpstreamRecord>, int, bool) {
    match fullest(conns) {
        Some(i) => (conns.update(i, conns[i].leased(now_ms)), i, false),
        None => if conns.len() < max_conns {
            (
                conns.push(UpstreamRecord::fresh(key, now_ms).leased(now_ms)),
                conns.len() as int,
                true,
            )
        } else {
            let i = least_loaded(conns);
            (conns.update(i, conns[i].leased(now_ms)), i, false)
        },
    }
}

/// The streams in flight on a list of connections, held at the largest count.
pub open spec fn in_flight(conns: Seq<UpstreamRecord>) -> nat
    decreases conns.len(),
{
    if conns.len() == 0 {
        0
    } else {
        let n = in_flight(conns.drop_last()) + conns.last().live as nat;
        if n > usize::MAX {
            usize::MAX as nat
        } else {
            n
        }
    }
}

/// Where a connection is in a list; the length of the list if it is not there.
pub open spec fn conn_at(conns: Seq<UpstreamRecord>, key: u64) -> nat
    decreases conns.len(),
{
    if conns.len() == 0 {
        0
    } else {
        let i = conn_at(conns.drop_last(), key);
        if i < conns.len() - 1 {
            i
        } else if conns.last().key == key {
            (conns.len() - 1) as nat
        } else {
            conns.len()
        }
    }
}

proof fn lemma_conn_found(conns: Seq<UpstreamRecord>, key: u64, k: int)
    requires
        0 <= k <= conns.len(),
        conn_at(conns.take(k), key) < k,
    ensures
        conn_at(conns, key) == conn_at(conns.take(k), key),
    decreases conns.len(),
{
    if k < conns.len() {
        assert(conns.drop_last().take(k) =~= conns.take(k));
        lemma_conn_found(conns.drop_last(), key, k);
    } else {
        assert(conns.take(k) =~= conns);
    }
}

fn find_conn(conns: &Vec<UpstreamRecord>, key: u64) -> (i: usize)
    ensures
        i == conn_at(conns@, key),
        i <= conns@.len(),
{
    let mut i: usize = 0;
    assert(conns@.take(0) =~= Seq::empty());
    while i < conns.len()
        invariant
            i <= conns@.len(),
            conn_at(conns@.take(i as int), key) == i,
        decreases conns@.len() - i,
    {
        assert(conns@.take(i + 1).drop_last() =~= conns@.take(i as int));
        if conns[i].key == key {
            proof {
                lemma_conn_found(conns@, key, i as int + 1);
            }
            return i;
        }
        i += 1;
    }
    assert(conns@.take(i as int) =~= conns@);
    i
}

/// Drops the connections that may no longer be leased from.
fn retain_usable(conns: &mut Vec<UpstreamRecord>, now_ms: u64, idle_timeout_ms: u64)
    ensures
        final(conns)@ == usable_only(old(conns)@, now_ms, idle_timeout_ms),
{
    let ghost all = conns@;
    let mut kept: Vec<UpstreamRecord> = Vec::new();
    let mut i: usize = 0;
    assert(all.take(0) =~= Seq::empty());
    while i < conns.len()
        invariant
            all == conns@,
            i <= conns@.len(),
            kept@ == usable_only(all.take(i as int), now_ms, idle_timeout_ms),
        decreases conns@.len() - i,
    {
        assert(all.take(i + 1).drop_last() =~= all.take(i as int));
        if conns[i].usable(now_ms, idle_timeout_ms) {
            kept.push(conns[i]);
        }
        i += 1;
    }
    assert(all.take(i as int) =~= all);
    *conns = kept;
}

fn find_fullest(conns: &Vec<UpstreamRecord>) -> (r: Option<usize>)
    ensures
        match r {
            Some(i) => fullest(conns@) == Some(i as int) && i < conns@.len(),
            None => fullest(conns@) is None,
        },
{
    let mut best: Option<usize> = None;
    let mut i: usize = 0;
    assert(conns@.take(0) =~= Seq::empty());
    while i < conns.len()
        invariant
            i <= conns@.len(),
            match best {
                Some(k) => k < i && fullest(conns@.take(i as int)) == Some(k as int),
                None => fullest(conns@.take(i as int)) is None,
            },
        decreases conns@.len() - i,
    {
        assert(conns@.take(i + 1).drop_last() =~= conns@.take(i as int));
        let better = match best {
            None => true,
            Some(k) => conns[i].live >= conns[k].live,
        };
        if conns[i].has_room() && better {
            best = Some(i);
        }
        i += 1;
    }
    assert(conns@.take(i as int) =~= conns@);
    best
}

fn find_least_loaded(conns: &Vec<UpstreamRecord>) -> (best: usize)
    requires
        conns@.len() > 0,
    ensures
        best == least_loaded(conns@),
        best < conns@.len(),
{
    let mut best: usize = 0;
    let mut i: usize = 1;
    while i < conns.len()
        invariant
            1 <= i <= conns@.len(),
            best < i,
            best == least_loaded(conns@.take(i as int)),
        decreases conns@.len() - i,
    {
        assert(conns@.take(i + 1).drop_last() =~= conns@.take(i as int));
        if conns[i].live < conns[best].live {
            best = i;
        }
        i += 1;
    }
    assert(conns@.take(i as int) =~= conns@);
    best
}

// ---------------------------------------------------------------------------
// The pool
// ---------------------------------------------------------------------------

/// The upstream connection pool.
#[derive(Debug)]
pub struct Pool {
    backends: Roster<Vec<UpstreamRecord>>,
    /// How many connections a single backend may have open at once: a ceiling
    /// rather than a target.
    max_conns_per_backend: usize,
    idle_timeout_ms: u64,
    next_key: u64,
    near_shed_limit: bool,
}

/// What the pool holds.
#[verifier::ext_equal]
pub struct PoolModel {
    pub backends: Map<Backend, Seq<UpstreamRecord>>,
    /// The backends in the order they were first leased from.
    pub order: Seq<Backend>,
    pub max_conns: usize,
    pub idle_timeout_ms: u64,
    pub next_key: u64,
    /// Whether a connection's queue is close to the point where it would turn
    /// requests away.
    pub near_shed_limit: bool,
}

/// The connections of each backend.
pub open spec fn conns_of(m: Map<Backend, Vec<UpstreamRecord>>) -> Map<
    Backend,
    Seq<UpstreamRecord>,
> {
    Map::new(|b: Backend| m.contains_key(b), |b: Backend| m[b]@)
}

impl View for Pool {
    type V = PoolModel;

    closed spec fn view(&self) -> PoolModel {
        PoolModel {
            backends: conns_of(self.backends@),
            order: self.backends.order(),
            max_conns: self.max_conns_per_backend,
            idle_timeout_ms: self.idle_timeout_ms,
            next_key: self.next_key,
            near_shed_limit: self.near_shed_limit,
        }
    }
}

/// How many usable connections the backends of a list have, held at the
/// largest count.
pub open spec fn held(
    backends: Map<Backend, Seq<UpstreamRecord>>,
    order: Seq<Backend>,
    now_ms: u64,
    idle_timeout_ms: u64,
) -> nat
    decreases order.len(),
{
    if order.len() == 0 {
        0
    } else {
        let n = held(backends, order.drop_last(), now_ms, idle_timeout_ms) + usable_only(
            backends[order.last()],
            now_ms,
            idle_timeout_ms,
        ).len();
        if n > usize::MAX {
            usize::MAX as nat
        } else {
            n
        }
    }
}

impl PoolModel {
    /// A backend's connections.
    pub open spec fn conns(self, b: Backend) -> Seq<UpstreamRecord> {
        if self.backends.contains_key(b) {
            self.backends[b]
        } else {
            Seq::empty()
        }
    }

    /// The pool after a checkout from `b`, and the lease.
    pub open spec fn after_checkout(self, b: Backend, now_ms: u64) -> (PoolModel, Lease) {
        let conns = usable_only(self.conns(b), now_ms, self.idle_timeout_ms);
        let (after, i, opened) = checked_out(conns, self.max_conns, self.next_key, now_ms);
        let before = if opened {
            UpstreamRecord::fresh(self.next_key, now_ms)
        } else {
            conns[i]
        };
        (
            PoolModel {
                backends: self.backends.insert(b, after),
                order: if self.backends.contains_key(b) {
                    self.order
                } else {
                    self.order.push(b)
                },
                next_key: if opened {
                    self.next_key.wrapping_add(1)
                } else {
                    self.next_key
                },
                ..self
            },
            Lease { backend: b, key: before.key, id: RequestId(before.issued), opened },
        )
    }

    /// The pool with one connection's record replaced, if it has it.
    pub open spec fn with(self, b: Backend, key: u64, r: UpstreamRecord) -> PoolModel {
        let i = conn_at(self.conns(b), key);
        if self.backends.contains_key(b) && i < self.conns(b).len() {
            PoolModel {
                backends: self.backends.insert(b, self.conns(b).update(i as int, r)),
                ..self
            }
        } else {
            self
        }
    }

    /// A connection's record.
    pub open spec fn record(self, b: Backend, key: u64) -> UpstreamRecord {
        self.conns(b)[conn_at(self.conns(b), key) as int]
    }

    /// Each backend with its current load.
    pub open spec fn loads(self, backends: Seq<Backend>) -> Seq<BackendLoad> {
        Seq::new(
            backends.len(),
            |i: int| BackendLoad {
                backend: backends[i],
                outstanding: in_flight(self.conns(backends[i])) as usize,
            },
        )
    }
}

impl Pool {
    /// No backend occurs twice, and each may have a connection.
    pub closed spec fn wf(self) -> bool {
        self.backends.wf() && self.max_conns_per_backend >= 1
    }

    pub fn new(max_conns_per_backend: usize) -> (p: Self)
        ensures
            p.wf(),
            p@.backends =~= Map::<Backend, Seq<UpstreamRecord>>::empty(),
            p@.order =~= Seq::<Backend>::empty(),
            p@.max_conns == (if max_conns_per_backend == 0 {
                1
            } else {
                max_conns_per_backend
            }),
            p@.idle_timeout_ms == 60_000,
            p@.next_key == 0,
            !p@.near_shed_limit,
    {
        Self::with_policy(max_conns_per_backend, &Policy::default())
    }

    pub fn with_policy(max_conns_per_backend: usize, policy: &Policy) -> (p: Self)
        ensures
            p.wf(),
            p@.backends =~= Map::<Backend, Seq<UpstreamRecord>>::empty(),
            p@.order =~= Seq::<Backend>::empty(),
            p@.max_conns == (if max_conns_per_backend == 0 {
                1
            } else {
                max_conns_per_backend
            }),
            p@.idle_timeout_ms == policy.idle_timeout / 1_000_000,
            p@.next_key == 0,
            !p@.near_shed_limit,
    {
        Pool {
            backends: Roster::new(),
            max_conns_per_backend: if max_conns_per_backend == 0 {
                1
            } else {
                max_conns_per_backend
            },
            idle_timeout_ms: policy.idle_timeout / 1_000_000,
            next_key: 0,
            near_shed_limit: false,
        }
    }

    /// Leases a slot on a connection to `backend`, opening one if every warm
    /// connection is full. Never fails: a pool at its ceiling queues.
    pub fn checkout(&mut self, backend: &Backend, now_ms: u64) -> (r: Result<Lease, PoolError>)
        requires
            old(self).wf(),
        ensures
            final(self).wf(),
            final(self)@ == old(self)@.after_checkout(*backend, now_ms).0,
            r == Ok::<Lease, PoolError>(old(self)@.after_checkout(*backend, now_ms).1),
    {
        let idle_timeout_ms = self.idle_timeout_ms;
        let max_conns = self.max_conns_per_backend;
        let key = self.next_key;
        let ghost m0 = self.backends@;
        let conns = self.backends.get_or_insert(backend, Vec::new());
        assert(conns@ =~= old(self)@.conns(*backend));
        // Drop connections that have died since we last looked.
        retain_usable(conns, now_ms, idle_timeout_ms);
        let ghost usable = conns@;
        let lease = match find_fullest(conns) {
            Some(i) => {
                let mut record = conns[i];
                let id = record.lease(now_ms);
                conns.set(i, record);
                Lease { backend: *backend, key: record.key, id, opened: false }
            },
            None => {
                if conns.len() < max_conns {
                    let mut record = UpstreamRecord::new(key, now_ms);
                    let id = record.lease(now_ms);
                    conns.push(record);
                    Lease { backend: *backend, key, id, opened: true }
                } else {
                    let i = find_least_loaded(conns);
                    let mut record = conns[i];
                    let id = record.lease(now_ms);
                    conns.set(i, record);
                    Lease { backend: *backend, key: record.key, id, opened: false }
                }
            },
        };
        let ghost after = *conns;
        if lease.opened {
            self.next_key = self.next_key.wrapping_add(1);
        }
        proof {
            assert(conns_of(m0.insert(*backend, after)) =~= conns_of(m0).insert(
                *backend,
                after@,
            ));
        }
        assert(self@ =~= old(self)@.after_checkout(*backend, now_ms).0);
        Ok(lease)
    }

    /// Replaces one connection's record.
    fn replace(&mut self, backend: &Backend, key: u64, record: UpstreamRecord)
        requires
            old(self).wf(),
        ensures
            final(self).wf(),
            final(self)@ == old(self)@.with(*backend, key, record),
    {
        let known = self.backends.get(backend).is_some();
        if known {
            let ghost m0 = self.backends@;
            let conns = self.backends.get_or_insert(backend, Vec::new());
            let i = find_conn(conns, key);
            if i < conns.len() {
                conns.set(i, record);
            }
            let ghost after = *conns;
            proof {
                assert(conns_of(m0.insert(*backend, after)) =~= conns_of(m0).insert(
                    *backend,
                    after@,
                ));
            }
            assert(self@ =~= old(self)@.with(*backend, key, record));
        }
    }

    /// A connection's record, if the pool still has it.
    pub fn find(&self, backend: &Backend, key: u64) -> (r: Option<UpstreamRecord>)
        requires
            self.wf(),
        ensures
            match r {
                Some(record) => self@.backends.contains_key(*backend) && conn_at(
                    self@.conns(*backend),
                    key,
                ) < self@.conns(*backend).len() && record == self@.record(*backend, key),
                None => conn_at(self@.conns(*backend), key) >= self@.conns(*backend).len(),
            },
    {
        match self.backends.get(backend) {
            None => None,
            Some(conns) => {
                let i = find_conn(conns, key);
                if i < conns.len() {
                    Some(conns[i])
                } else {
                    None
                }
            },
        }
    }

    /// Hands a slot back, which is what keeps the count the load balancer reads
    /// honest. It does not cancel the stream: that is a message.
    pub fn release(&mut self, lease: &Lease)
        requires
            old(self).wf(),
        ensures
            final(self).wf(),
            final(self)@ == old(self)@.with(
                lease.backend,
                lease.key,
                old(self)@.record(lease.backend, lease.key).released(),
            ),
    {
        if let Some(r) = self.find(&lease.backend, lease.key) {
            let mut record = r;
            record.release();
            self.replace(&lease.backend, lease.key, record);
        }
    }

    /// A connection's backend announced its `MAX_CONCURRENT_STREAMS`.
    pub fn set_max_concurrent(&mut self, backend: &Backend, key: u64, max: usize)
        requires
            old(self).wf(),
        ensures
            final(self).wf(),
            final(self)@ == old(self)@.with(
                *backend,
                key,
                (UpstreamRecord { max_concurrent: max, ..old(self)@.record(*backend, key) }),
            ),
    {
        if let Some(r) = self.find(backend, key) {
            let mut record = r;
            record.set_max_concurrent(max);
            self.replace(backend, key, record);
        }
    }

    /// A connection accepts no further request.
    pub fn retire(&mut self, backend: &Backend, key: u64)
        requires
            old(self).wf(),
        ensures
            final(self).wf(),
            final(self)@ == old(self)@.with(
                *backend,
                key,
                (UpstreamRecord { closed: true, ..old(self)@.record(*backend, key) }),
            ),
    {
        if let Some(r) = self.find(backend, key) {
            let mut record = r;
            record.retire();
            self.replace(backend, key, record);
        }
    }

    /// Each backend with its current load: what the load balancer works from.
    pub fn load(&self, backends: &[Backend]) -> (r: Vec<BackendLoad>)
        requires
            self.wf(),
        ensures
            r@ == self@.loads(backends@),
    {
        let mut r: Vec<BackendLoad> = Vec::new();
        let mut i: usize = 0;
        while i < backends.len()
            invariant
                self.wf(),
                i <= backends@.len(),
                r@ == self@.loads(backends@).take(i as int),
            decreases backends@.len() - i,
        {
            let outstanding = match self.backends.get(&backends[i]) {
                None => 0,
                Some(conns) => total_in_flight(conns),
            };
            r.push(BackendLoad { backend: backends[i], outstanding });
            assert(r@ =~= self@.loads(backends@).take(i + 1));
            i += 1;
        }
        assert(r@ =~= self@.loads(backends@));
        r
    }

    /// Usable connections currently held, for the pool-utilization gauge.
    pub fn connection_count(&self, now_ms: u64) -> (n: usize)
        requires
            self.wf(),
        ensures
            n == held(self@.backends, self@.order, now_ms, self@.idle_timeout_ms),
    {
        let mut n: usize = 0;
        let mut i: usize = 0;
        let ghost order = self@.order;
        assert(order.take(0) =~= Seq::empty());
        while i < self.backends.len()
            invariant
                self.wf(),
                order == self@.order,
                i <= order.len(),
                n == held(self@.backends, order.take(i as int), now_ms, self@.idle_timeout_ms),
            decreases order.len() - i,
        {
            assert(order.take(i + 1).drop_last() =~= order.take(i as int));
            let conns = self.backends.nth(i);
            let mut k: usize = 0;
            let mut here: usize = 0;
            assert(conns@.take(0) =~= Seq::empty());
            while k < conns.len()
                invariant
                    k <= conns@.len(),
                    here <= k,
                    here == usable_only(
                        conns@.take(k as int),
                        now_ms,
                        self.idle_timeout_ms,
                    ).len(),
                decreases conns@.len() - k,
            {
                assert(conns@.take(k + 1).drop_last() =~= conns@.take(k as int));
                if conns[k].usable(now_ms, self.idle_timeout_ms) {
                    here += 1;
                }
                k += 1;
            }
            assert(conns@.take(k as int) =~= conns@);
            n = n.saturating_add(here);
            i += 1;
        }
        assert(order.take(i as int) =~= order);
        n
    }

    /// Whether a connection's queue is close to turning requests away.
    pub fn near_shed_limit(&self) -> (b: bool)
        requires
            self.wf(),
        ensures
            b == self@.near_shed_limit,
    {
        self.near_shed_limit
    }

    /// Notes whether a connection's queue is close to turning requests away.
    pub fn set_near_shed_limit(&mut self, near: bool)
        requires
            old(self).wf(),
        ensures
            final(self).wf(),
            final(self)@ == (PoolModel { near_shed_limit: near, ..old(self)@ }),
    {
        self.near_shed_limit = near;
    }
}

fn total_in_flight(conns: &Vec<UpstreamRecord>) -> (n: usize)
    ensures
        n == in_flight(conns@),
{
    let mut n: usize = 0;
    let mut i: usize = 0;
    assert(conns@.take(0) =~= Seq::empty());
    while i < conns.len()
        invariant
            i <= conns@.len(),
            n == in_flight(conns@.take(i as int)),
        decreases conns@.len() - i,
    {
        assert(conns@.take(i + 1).drop_last() =~= conns@.take(i as int));
        n = n.saturating_add(conns[i].live);
        i += 1;
    }
    assert(conns@.take(i as int) =~= conns@);
    n
}

// ---------------------------------------------------------------------------
// Laws
// ---------------------------------------------------------------------------

/// What the fullest connection is: one with room, that no other with room
/// exceeds; none only where none has room.
pub proof fn the_fullest_connection_with_room_is_chosen(conns: Seq<UpstreamRecord>)
    ensures
        match fullest(conns) {
            Some(i) => {
                &&& 0 <= i < conns.len()
                &&& conns[i].roomy()
                &&& forall|k: int|
                    0 <= k < conns.len() && (#[trigger] conns[k]).roomy() ==> conns[k].live
                        <= conns[i].live
            },
            None => forall|k: int| 0 <= k < conns.len() ==> !(#[trigger] conns[k]).roomy(),
        },
    decreases conns.len(),
{
    if conns.len() > 0 {
        let init = conns.drop_last();
        the_fullest_connection_with_room_is_chosen(init);
        assert forall|k: int| 0 <= k < conns.len() && k != conns.len() - 1 implies
            #[trigger] conns[k] == init[k] by {}
    }
}

/// What the least loaded connection is.
pub proof fn the_least_loaded_connection_queues(conns: Seq<UpstreamRecord>)
    requires
        conns.len() > 0,
    ensures
        0 <= least_loaded(conns) < conns.len(),
        forall|k: int|
            0 <= k < conns.len() ==> conns[least_loaded(conns)].live <= (#[trigger] conns[k]).live,
    decreases conns.len(),
{
    if conns.len() > 1 {
        let init = conns.drop_last();
        the_least_loaded_connection_queues(init);
        assert forall|k: int| 0 <= k < init.len() implies #[trigger] conns[k] == init[k] by {}
    }
}

/// Coalescing: a connection is opened only where every usable one is full, and
/// never past the ceiling.
pub proof fn a_checkout_fills_before_it_opens(m: PoolModel, b: Backend, now_ms: u64)
    requires
        m.max_conns >= 1,
        m.conns(b).len() <= m.max_conns,
    ensures
        ({
            let usable = usable_only(m.conns(b), now_ms, m.idle_timeout_ms);
            let (n, lease) = m.after_checkout(b, now_ms);
            &&& lease.opened ==> forall|k: int|
                0 <= k < usable.len() ==> !(#[trigger] usable[k]).roomy()
            &&& lease.opened ==> n.conns(b).len() == usable.len() + 1
            &&& !lease.opened ==> n.conns(b).len() == usable.len()
            &&& n.conns(b).len() <= m.max_conns
        }),
{
    lemma_usable_len(m.conns(b), now_ms, m.idle_timeout_ms);
    let usable = usable_only(m.conns(b), now_ms, m.idle_timeout_ms);
    the_fullest_connection_with_room_is_chosen(usable);
    if usable.len() > 0 {
        the_least_loaded_connection_queues(usable);
    }
    let (after, i, opened) = checked_out(usable, m.max_conns, m.next_key, now_ms);
    assert(m.after_checkout(b, now_ms).0.conns(b) == after);
}

proof fn lemma_usable_len(conns: Seq<UpstreamRecord>, now_ms: u64, idle_timeout_ms: u64)
    ensures
        usable_only(conns, now_ms, idle_timeout_ms).len() <= conns.len(),
        forall|k: int|
            0 <= k < usable_only(conns, now_ms, idle_timeout_ms).len() ==> (#[trigger] usable_only(
                conns,
                now_ms,
                idle_timeout_ms,
            )[k]).is_usable(now_ms, idle_timeout_ms),
    decreases conns.len(),
{
    if conns.len() > 0 {
        lemma_usable_len(conns.drop_last(), now_ms, idle_timeout_ms);
    }
}

/// Every lease on a connection names a request of its own: the number is below
/// the end of the id space, and the next lease gets the next one.
pub proof fn every_lease_names_a_distinct_request(m: PoolModel, b: Backend, now_ms: u64)
    requires
        m.max_conns >= 1,
    ensures
        ({
            let (n, lease) = m.after_checkout(b, now_ms);
            &&& lease.id.0 < MAX_REQUESTS
            &&& exists|i: int|
                0 <= i < n.conns(b).len() && (#[trigger] n.conns(b)[i]).key == lease.key
                    && n.conns(b)[i].issued == lease.id.0 + 1
        }),
{
    let usable = usable_only(m.conns(b), now_ms, m.idle_timeout_ms);
    lemma_usable_len(m.conns(b), now_ms, m.idle_timeout_ms);
    the_fullest_connection_with_room_is_chosen(usable);
    if usable.len() > 0 {
        the_least_loaded_connection_queues(usable);
    }
    let (after, i, opened) = checked_out(usable, m.max_conns, m.next_key, now_ms);
    assert(m.after_checkout(b, now_ms).0.conns(b) == after);
    assert(after[i].key == m.after_checkout(b, now_ms).1.key);
}

/// A lease that is handed back leaves the slot as it found it.
pub proof fn a_returned_lease_frees_its_slot(r: UpstreamRecord, now_ms: u64)
    requires
        r.live < usize::MAX,
    ensures
        r.leased(now_ms).released().live == r.live,
{
}

/// A connection with work on it is never recycled for its age.
pub proof fn a_busy_connection_is_not_idle(r: UpstreamRecord, now_ms: u64, idle_timeout_ms: u64)
    requires
        r.live > 0,
        !r.closed,
        r.issued < MAX_REQUESTS,
    ensures
        r.is_usable(now_ms, idle_timeout_ms),
{
}

/// The connections that can be leased are those that are not retired, have ids
/// left, and are in use or were lately; they keep their order.
pub proof fn only_usable_connections_are_kept(
    conns: Seq<UpstreamRecord>,
    now_ms: u64,
    idle_timeout_ms: u64,
)
    ensures
        usable_only(conns, now_ms, idle_timeout_ms) == conns.filter(
            |r: UpstreamRecord|
                !r.closed && r.issued < MAX_REQUESTS && (r.live > 0 || (if now_ms
                    < r.last_used_ms {
                    0int
                } else {
                    now_ms - r.last_used_ms
                }) < idle_timeout_ms),
        ),
    decreases conns.len(),
{
    reveal(Seq::filter);
    if conns.len() > 0 {
        only_usable_connections_are_kept(conns.drop_last(), now_ms, idle_timeout_ms);
    }
}

/// What a change to one connection changes: that connection, found by its key,
/// and nothing about any other, of its backend or of another.
pub proof fn a_change_touches_its_connection_only(
    m: PoolModel,
    b: Backend,
    key: u64,
    r: UpstreamRecord,
    other: Backend,
    i: int,
)
    ensures
        other != b ==> m.with(b, key, r).conns(other) == m.conns(other),
        m.with(b, key, r).conns(b).len() == m.conns(b).len(),
        0 <= i < m.conns(b).len() && m.conns(b)[i].key != key ==> m.with(b, key, r).conns(b)[i]
            == m.conns(b)[i],
        0 <= i < m.conns(b).len() && m.conns(b)[i].key == key && (forall|k: int|
            0 <= k < i ==> (#[trigger] m.conns(b)[k]).key != key) ==> m.with(b, key, r).conns(b)[i]
            == r && m.record(b, key) == m.conns(b)[i],
        m.with(b, key, r).next_key == m.next_key,
        m.with(b, key, r).order == m.order,
{
    lemma_conn_at(m.conns(b), key);
}

proof fn lemma_conn_at(conns: Seq<UpstreamRecord>, key: u64)
    ensures
        conn_at(conns, key) <= conns.len(),
        conn_at(conns, key) < conns.len() ==> conns[conn_at(conns, key) as int].key == key,
        forall|k: int| 0 <= k < conn_at(conns, key) ==> (#[trigger] conns[k]).key != key,
    decreases conns.len(),
{
    if conns.len() > 0 {
        let init = conns.drop_last();
        lemma_conn_at(init, key);
        assert forall|k: int| 0 <= k < conn_at(conns, key) implies (#[trigger] conns[k]).key
            != key by {
            if k < init.len() {
                assert(init[k] == conns[k]);
            }
        }
    }
}

/// The streams in flight to a backend are those of all its connections together.
pub proof fn a_backends_load_is_that_of_its_connections(
    conns: Seq<UpstreamRecord>,
    i: int,
    r: UpstreamRecord,
)
    requires
        0 <= i < conns.len(),
        summed(conns) <= usize::MAX,
        summed(conns.update(i, r)) <= usize::MAX,
    ensures
        in_flight(conns) == summed(conns),
        in_flight(conns.update(i, r)) == in_flight(conns) - conns[i].live + r.live,
{
    lemma_summed(conns);
    lemma_summed(conns.update(i, r));
    lemma_summed_update(conns, i, r);
}

/// The streams of some connections, added up.
pub open spec fn summed(conns: Seq<UpstreamRecord>) -> int {
    conns.fold_left(0int, |n: int, r: UpstreamRecord| n + r.live)
}

proof fn lemma_summed(conns: Seq<UpstreamRecord>)
    requires
        summed(conns) <= usize::MAX,
    ensures
        in_flight(conns) == summed(conns),
        summed(conns) >= 0,
    decreases conns.len(),
{
    lemma_summed_positive(conns);
    if conns.len() > 0 {
        lemma_summed(conns.drop_last());
    }
}

proof fn lemma_summed_positive(conns: Seq<UpstreamRecord>)
    ensures
        summed(conns) >= 0,
        conns.len() > 0 ==> summed(conns) == summed(conns.drop_last()) + conns.last().live,
    decreases conns.len(),
{
    if conns.len() > 0 {
        lemma_summed_positive(conns.drop_last());
    }
}

proof fn lemma_summed_update(conns: Seq<UpstreamRecord>, i: int, r: UpstreamRecord)
    requires
        0 <= i < conns.len(),
    ensures
        summed(conns.update(i, r)) == summed(conns) - conns[i].live + r.live,
    decreases conns.len(),
{
    lemma_summed_positive(conns);
    lemma_summed_positive(conns.update(i, r));
    if i < conns.len() - 1 {
        assert(conns.update(i, r).drop_last() =~= conns.drop_last().update(i, r));
        lemma_summed_update(conns.drop_last(), i, r);
    } else {
        assert(conns.update(i, r).drop_last() =~= conns.drop_last());
    }
}

/// The balancer is told of every backend, in order, with its load.
pub proof fn every_backend_is_reported_with_its_load(m: PoolModel, backends: Seq<Backend>, i: int)
    requires
        0 <= i < backends.len(),
        summed(m.conns(backends[i])) <= usize::MAX,
    ensures
        m.loads(backends).len() == backends.len(),
        m.loads(backends)[i].backend == backends[i],
        m.loads(backends)[i].outstanding == summed(m.conns(backends[i])),
{
    lemma_summed(m.conns(backends[i]));
}

/// A lease is on a connection of the backend that was asked for, one that is
/// usable or opened for it; it takes one slot of that connection and one of its
/// ids, touches no other connection, and no other backend.
pub proof fn a_lease_takes_one_slot(m: PoolModel, b: Backend, other: Backend, now_ms: u64)
    requires
        m.max_conns >= 1,
        other != b,
    ensures
        ({
            let (n, lease) = m.after_checkout(b, now_ms);
            let usable = usable_only(m.conns(b), now_ms, m.idle_timeout_ms);
            let after = n.conns(b);
            &&& lease.backend == b
            &&& n.conns(other) == m.conns(other)
            &&& lease.opened ==> after.len() == usable.len() + 1 && after.drop_last() == usable
                && after.last().key == lease.key && lease.key == m.next_key && after.last().live
                == 1 && lease.id.0 == 0 && n.next_key == m.next_key.wrapping_add(1)
            &&& !lease.opened ==> n.next_key == m.next_key && exists|i: int|
                0 <= i < usable.len() && (#[trigger] usable[i]).key == lease.key && lease.id.0
                    == usable[i].issued && after == usable.update(
                    i,
                    UpstreamRecord {
                        live: usable[i].live.wrapping_add(1),
                        issued: usable[i].issued.wrapping_add(1),
                        last_used_ms: now_ms,
                        ..usable[i]
                    },
                )
        }),
{
    let usable = usable_only(m.conns(b), now_ms, m.idle_timeout_ms);
    the_fullest_connection_with_room_is_chosen(usable);
    if usable.len() > 0 {
        the_least_loaded_connection_queues(usable);
    }
    let (after, i, opened) = checked_out(usable, m.max_conns, m.next_key, now_ms);
    let n = m.after_checkout(b, now_ms).0;
    assert(n.conns(b) == after);
    if opened {
        assert(after.drop_last() =~= usable);
    } else {
        assert(usable[i].key == m.after_checkout(b, now_ms).1.key);
    }
}

} // verus!
