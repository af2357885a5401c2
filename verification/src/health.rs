//! Backend health, outlier ejection, and probe-back.
//!
//! The load balancer picks among backends; this decides which backends it is
//! allowed to see. Every real request is already a health check: consecutive
//! failures eject a backend, any success clears the count.
//!
//! This module is pure and clock-injected: every method takes `now`, and there is
//! no timer and no I/O. Instants and durations are counts of nanoseconds; sums
//! that would pass the largest count are held at it.
//!
//! # Probe-back is one request, not a share of traffic
//!
//! When a backend's ejection expires it becomes half-open: one in-flight trial
//! request is admitted to it, and its outcome decides. Letting the full share
//! resume the instant a timer fires is what makes health checking flap.
//!
//! # Fail open
//!
//! If every backend is ejected, [`Health::eligible`] returns them all rather than
//! none. Ejection is a guess; a wrong guess that refuses all traffic turns a
//! partial outage into a total one, caused by us.

use crate::lb::{offered, Backend, BackendLoad};
use crate::roster::Roster;
use crate::upstream::probe::later;
use vstd::prelude::*;

verus! {

/// When a backend is ejected and how it comes back.
#[derive(Clone, Copy, PartialEq, Eq, Debug, Structural)]
pub struct Policy {
    /// Consecutive failures before a backend leaves rotation.
    pub eject_after: u32,
    /// How long the first ejection lasts.
    pub base_backoff: u64,
    /// The ceiling on repeated ejections.
    pub max_backoff: u64,
    /// How long a pooled connection may sit idle before it is worth proving it
    /// is still alive.
    pub ping_idle: u64,
    /// How long to wait for the PING ACK before calling the connection dead.
    pub ping_timeout: u64,
    /// How long a pooled connection may sit unused before it is recycled. Under
    /// the common 65 s upstream keep-alive, so that we close first.
    pub idle_timeout: u64,
}

/// The policy a deployment starts from.
pub open spec fn default_policy() -> Policy {
    Policy {
        eject_after: 5,
        base_backoff: 10_000_000_000,
        max_backoff: 30_000_000_000,
        ping_idle: 5_000_000_000,
        ping_timeout: 5_000_000_000,
        idle_timeout: 60_000_000_000,
    }
}

impl Default for Policy {
    fn default() -> (p: Self)
        ensures
            p == default_policy(),
    {
        Policy {
            eject_after: 5,
            base_backoff: 10_000_000_000,
            max_backoff: 30_000_000_000,
            ping_idle: 5_000_000_000,
            ping_timeout: 5_000_000_000,
            idle_timeout: 60_000_000_000,
        }
    }
}

impl Policy {
    /// Practically never eject. For uses that are about something else.
    pub fn permissive() -> (p: Self)
        ensures
            p == (Policy { eject_after: u32::MAX, ..default_policy() }),
    {
        Policy { eject_after: u32::MAX, ..Policy::default() }
    }
}

/// What a backend is currently doing, from our point of view.
#[derive(Clone, Copy, PartialEq, Eq, Debug, Structural)]
pub enum State {
    /// In rotation.
    Healthy,
    /// Out of rotation until an instant passes.
    Ejected,
    /// Ejection expired; one trial request is allowed through.
    HalfOpen,
}

/// What is known about one backend.
#[derive(Clone, Copy, PartialEq, Eq, Debug, Structural)]
pub struct Entry {
    pub consecutive_failures: u32,
    /// `Some` while ejected; the instant the ejection expires.
    pub ejected_until: Option<u64>,
    /// Whether the single trial request is currently out.
    pub trial_in_flight: bool,
    /// The backoff the next ejection will use.
    pub backoff: u64,
    pub ejections: u64,
}

/// A backend nothing is known about.
pub open spec fn unknown(policy: Policy) -> Entry {
    Entry {
        consecutive_failures: 0,
        ejected_until: None,
        trial_in_flight: false,
        backoff: policy.base_backoff,
        ejections: 0,
    }
}

impl Entry {
    fn new(policy: &Policy) -> (e: Self)
        ensures
            e == unknown(*policy),
    {
        Entry {
            consecutive_failures: 0,
            ejected_until: None,
            trial_in_flight: false,
            backoff: policy.base_backoff,
            ejections: 0,
        }
    }

    /// What the backend is doing at `now`.
    pub open spec fn at(self, now: u64) -> State {
        match self.ejected_until {
            None => State::Healthy,
            Some(until) => if now < until {
                State::Ejected
            } else {
                State::HalfOpen
            },
        }
    }

    fn state(&self, now: u64) -> (s: State)
        ensures
            s == self.at(now),
    {
        match self.ejected_until {
            None => State::Healthy,
            Some(until) => if now < until {
                State::Ejected
            } else {
                State::HalfOpen
            },
        }
    }

    /// Whether a request may be sent to the backend at `now`: in rotation, or
    /// half-open with its trial still to be had.
    pub open spec fn admits(self, now: u64) -> bool {
        match self.at(now) {
            State::Healthy => true,
            State::Ejected => false,
            State::HalfOpen => !self.trial_in_flight,
        }
    }

    /// The doubled backoff, under its ceiling.
    pub open spec fn longer(self, policy: Policy) -> u64 {
        let doubled = later(self.backoff, self.backoff);
        if doubled > policy.max_backoff {
            policy.max_backoff
        } else {
            doubled
        }
    }

    /// After a failure at `now`, and whether it ejected the backend. A failed
    /// trial ejects at once, for longer; otherwise a long enough run does.
    pub open spec fn failed(self, policy: Policy, now: u64) -> (Entry, bool) {
        if self.trial_in_flight {
            (
                Entry {
                    trial_in_flight: false,
                    backoff: self.longer(policy),
                    ejected_until: Some(later(now, self.longer(policy))),
                    ejections: later(self.ejections, 1),
                    ..self
                },
                true,
            )
        } else {
            let run = if self.consecutive_failures < u32::MAX {
                (self.consecutive_failures + 1) as u32
            } else {
                u32::MAX
            };
            let e = Entry { consecutive_failures: run, ..self };
            if run >= policy.eject_after && self.ejected_until is None {
                (
                    Entry {
                        ejected_until: Some(later(now, self.backoff)),
                        ejections: later(self.ejections, 1),
                        ..e
                    },
                    true,
                )
            } else {
                (e, false)
            }
        }
    }

    /// After a success: back in rotation, with a clean slate.
    pub open spec fn succeeded(self, policy: Policy) -> Entry {
        Entry {
            consecutive_failures: 0,
            ejected_until: None,
            trial_in_flight: false,
            backoff: policy.base_backoff,
            ..self
        }
    }

    /// After the balancer chose the backend at `now`.
    pub open spec fn claimed(self, now: u64) -> Entry {
        if self.at(now) is HalfOpen {
            Entry { trial_in_flight: true, ..self }
        } else {
            self
        }
    }
}

/// Health state for every backend the proxy knows about.
#[derive(Debug)]
pub struct Health {
    backends: Roster<Entry>,
    policy: Policy,
    ejections: u64,
}

/// What health knows.
#[verifier::ext_equal]
pub struct HealthModel {
    pub backends: Map<Backend, Entry>,
    pub policy: Policy,
    pub ejections: u64,
}

impl View for Health {
    type V = HealthModel;

    closed spec fn view(&self) -> HealthModel {
        HealthModel {
            backends: self.backends@,
            policy: self.policy,
            ejections: self.ejections,
        }
    }
}

impl HealthModel {
    /// What is known about a backend.
    pub open spec fn entry(self, b: Backend) -> Entry {
        if self.backends.contains_key(b) {
            self.backends[b]
        } else {
            unknown(self.policy)
        }
    }

    /// Whether a backend is half-open with its trial still to be had.
    pub open spec fn awaits_trial(self, b: Backend, now: u64) -> bool {
        self.entry(b).at(now) is HalfOpen && !self.entry(b).trial_in_flight
    }

    /// Whether one of the candidates is half-open with its trial still to be
    /// had.
    pub open spec fn has_trial(self, candidates: Seq<BackendLoad>, now: u64) -> bool {
        exists|i: int|
            0 <= i < candidates.len() && self.awaits_trial(
                (#[trigger] candidates[i]).backend,
                now,
            )
    }

    /// The candidates worth sending to, in order: every healthy one, and the
    /// first half-open one whose trial is still to be had.
    pub open spec fn worthy(self, candidates: Seq<BackendLoad>, now: u64) -> Seq<BackendLoad>
        decreases candidates.len(),
    {
        if candidates.len() == 0 {
            Seq::empty()
        } else {
            let init = candidates.drop_last();
            let b = candidates.last().backend;
            if self.entry(b).at(now) is Healthy || (self.awaits_trial(b, now) && !self.has_trial(
                init,
                now,
            )) {
                self.worthy(init, now).push(candidates.last())
            } else {
                self.worthy(init, now)
            }
        }
    }

    /// The candidates to choose from: the worthy ones, or all where none is.
    pub open spec fn choices(self, candidates: Seq<BackendLoad>, now: u64) -> Seq<BackendLoad> {
        let worthy = self.worthy(candidates, now);
        if worthy.len() == 0 {
            candidates
        } else {
            worthy
        }
    }

    /// After a failure of `b` at `now`.
    pub open spec fn after_failure(self, b: Backend, now: u64) -> HealthModel {
        let (e, ejected) = self.entry(b).failed(self.policy, now);
        HealthModel {
            backends: self.backends.insert(b, e),
            ejections: if ejected {
                later(self.ejections, 1)
            } else {
                self.ejections
            },
            ..self
        }
    }

    /// After a success of `b`.
    pub open spec fn after_success(self, b: Backend) -> HealthModel {
        HealthModel {
            backends: self.backends.insert(b, self.entry(b).succeeded(self.policy)),
            ..self
        }
    }

    /// After the balancer chose `b` at `now`.
    pub open spec fn after_claim(self, b: Backend, now: u64) -> HealthModel {
        if self.backends.contains_key(b) {
            HealthModel {
                backends: self.backends.insert(b, self.backends[b].claimed(now)),
                ..self
            }
        } else {
            self
        }
    }

    /// How many of the backends are in rotation.
    pub open spec fn in_rotation(self, backends: Seq<Backend>, now: u64) -> nat
        decreases backends.len(),
    {
        if backends.len() == 0 {
            0
        } else {
            self.in_rotation(backends.drop_last(), now) + if self.entry(backends.last()).at(now)
                is Healthy {
                1nat
            } else {
                0nat
            }
        }
    }
}

impl Health {
    /// No backend occurs twice.
    pub closed spec fn wf(self) -> bool {
        self.backends.wf()
    }

    pub fn new(policy: Policy) -> (h: Self)
        ensures
            h.wf(),
            h@ == (HealthModel { backends: Map::empty(), policy, ejections: 0 }),
    {
        Health { backends: Roster::new(), policy, ejections: 0 }
    }

    pub fn policy(&self) -> (p: &Policy)
        requires
            self.wf(),
        ensures
            *p == self@.policy,
    {
        &self.policy
    }

    /// A request to `backend` failed in a way that says something about the
    /// backend: a connect failure, a dead connection, a malformed response.
    ///
    /// Deliberately not called for a stream the backend reset on its own: a
    /// RST_STREAM is a considered answer about one request, not evidence that
    /// the backend is unwell, and counting it would let one pathological client
    /// eject a healthy backend for everybody.
    pub fn failure(&mut self, backend: &Backend, now: u64)
        requires
            old(self).wf(),
        ensures
            final(self).wf(),
            final(self)@ == old(self)@.after_failure(*backend, now),
    {
        let policy = self.policy;
        let fresh = Entry::new(&policy);
        let entry = self.backends.get_or_insert(backend, fresh);
        let ejected = if entry.trial_in_flight {
            entry.trial_in_flight = false;
            let doubled = entry.backoff.saturating_add(entry.backoff);
            entry.backoff = if doubled > policy.max_backoff {
                policy.max_backoff
            } else {
                doubled
            };
            entry.ejected_until = Some(now.saturating_add(entry.backoff));
            entry.ejections = entry.ejections.saturating_add(1);
            true
        } else {
            entry.consecutive_failures = entry.consecutive_failures.saturating_add(1);
            if entry.consecutive_failures >= policy.eject_after && entry.ejected_until.is_none() {
                entry.ejected_until = Some(now.saturating_add(entry.backoff));
                entry.ejections = entry.ejections.saturating_add(1);
                true
            } else {
                false
            }
        };
        if ejected {
            self.ejections = self.ejections.saturating_add(1);
        }
    }

    /// A request to `backend` succeeded. Clears the failure run and, if this was
    /// the trial, restores the backend to rotation.
    pub fn success(&mut self, backend: &Backend)
        requires
            old(self).wf(),
        ensures
            final(self).wf(),
            final(self)@ == old(self)@.after_success(*backend),
    {
        let policy = self.policy;
        let fresh = Entry::new(&policy);
        let entry = self.backends.get_or_insert(backend, fresh);
        entry.consecutive_failures = 0;
        entry.ejected_until = None;
        entry.trial_in_flight = false;
        entry.backoff = policy.base_backoff;
    }

    /// Filters `candidates` down to the backends worth sending a request to:
    /// every healthy one, plus at most one half-open one, for its single trial.
    /// If that leaves nothing, returns everything.
    ///
    /// Read-only: offering a backend is not the same as sending to it. The trial
    /// is claimed in [`Health::claim_trial`], after a backend has been picked.
    pub fn eligible(&self, candidates: &[BackendLoad], now: u64) -> (r: Vec<BackendLoad>)
        requires
            self.wf(),
        ensures
            r@ == self@.choices(candidates@, now),
    {
        let mut worthy: Vec<BackendLoad> = Vec::new();
        let mut all: Vec<BackendLoad> = Vec::new();
        let mut trial = false;
        let mut i: usize = 0;
        assert(candidates@.take(0) =~= Seq::empty());
        while i < candidates.len()
            invariant
                self.wf(),
                i <= candidates@.len(),
                worthy@ == self@.worthy(candidates@.take(i as int), now),
                trial == self@.has_trial(candidates@.take(i as int), now),
                all@ == candidates@.take(i as int),
            decreases candidates@.len() - i,
        {
            let ghost seen = candidates@.take(i as int);
            let ghost next = candidates@.take(i + 1);
            assert(next.drop_last() =~= seen);
            let candidate = candidates[i];
            let (healthy, recovering) = match self.backends.get(&candidate.backend) {
                None => (true, false),
                Some(entry) => match entry.state(now) {
                    State::Healthy => (true, false),
                    State::Ejected => (false, false),
                    // Offer it only while no trial is outstanding.
                    State::HalfOpen => (false, !entry.trial_in_flight),
                },
            };
            if healthy || (recovering && !trial) {
                worthy.push(candidate);
            }
            proof {
                assert(next[i as int] == candidate);
                assert forall|k: int| 0 <= k < i implies next[k] == seen[k] by {}
                if trial {
                    let k = choose|k: int|
                        0 <= k < seen.len() && self@.awaits_trial(
                            (#[trigger] seen[k]).backend,
                            now,
                        );
                    assert(self@.awaits_trial(next[k].backend, now));
                }
            }
            trial = trial || recovering;
            all.push(candidate);
            assert(all@ =~= candidates@.take(i + 1));
            i += 1;
        }
        assert(candidates@.take(i as int) =~= candidates@);
        if worthy.len() == 0 {
            return all;
        }
        worthy
    }

    /// Claims the single probe slot, if `backend` is half-open and free. Called
    /// once the balancer has chosen, so the flag always has a real request
    /// behind it.
    pub fn claim_trial(&mut self, backend: &Backend, now: u64)
        requires
            old(self).wf(),
        ensures
            final(self).wf(),
            final(self)@ == old(self)@.after_claim(*backend, now),
    {
        let known = self.backends.get(backend).is_some();
        if known {
            let policy = self.policy;
            let fresh = Entry::new(&policy);
            let entry = self.backends.get_or_insert(backend, fresh);
            if entry.state(now) == State::HalfOpen && !entry.trial_in_flight {
                entry.trial_in_flight = true;
            }
        }
        assert(self@ =~= old(self)@.after_claim(*backend, now));
    }

    /// How many backends are currently in rotation, for the gauge.
    pub fn healthy_count(&self, candidates: &[Backend], now: u64) -> (n: usize)
        requires
            self.wf(),
        ensures
            n == self@.in_rotation(candidates@, now),
    {
        let mut n: usize = 0;
        let mut i: usize = 0;
        assert(candidates@.take(0) =~= Seq::empty());
        while i < candidates.len()
            invariant
                self.wf(),
                i <= candidates@.len(),
                n <= i,
                n == self@.in_rotation(candidates@.take(i as int), now),
            decreases candidates@.len() - i,
        {
            assert(candidates@.take(i + 1).drop_last() =~= candidates@.take(i as int));
            if self.state(&candidates[i], now) == State::Healthy {
                n += 1;
            }
            i += 1;
        }
        assert(candidates@.take(i as int) =~= candidates@);
        n
    }

    /// Total ejections since start, for the counter.
    pub fn ejections(&self) -> (n: u64)
        requires
            self.wf(),
        ensures
            n == self@.ejections,
    {
        self.ejections
    }

    /// This backend's state right now.
    pub fn state(&self, backend: &Backend, now: u64) -> (s: State)
        requires
            self.wf(),
        ensures
            s == self@.entry(*backend).at(now),
    {
        match self.backends.get(backend) {
            None => State::Healthy,
            Some(entry) => entry.state(now),
        }
    }
}

// ---------------------------------------------------------------------------
// Laws
// ---------------------------------------------------------------------------

/// Health never refuses all traffic: where there are candidates there is a
/// choice, and nothing is offered that was not a candidate.
pub proof fn health_fails_open(h: HealthModel, candidates: Seq<BackendLoad>, now: u64)
    requires
        candidates.len() > 0,
    ensures
        h.choices(candidates, now).len() > 0,
        forall|i: int|
            0 <= i < h.choices(candidates, now).len() ==> candidates.contains(
                #[trigger] h.choices(candidates, now)[i],
            ),
{
    lemma_worthy(h, candidates, now);
    assert forall|i: int| 0 <= i < candidates.len() implies candidates.contains(
        #[trigger] candidates[i],
    ) by {}
}

/// What is worthy is a candidate that admits a request; every healthy one is,
/// and one of those that await their trial.
proof fn lemma_worthy(h: HealthModel, candidates: Seq<BackendLoad>, now: u64)
    ensures
        forall|i: int|
            0 <= i < h.worthy(candidates, now).len() ==> candidates.contains(
                #[trigger] h.worthy(candidates, now)[i],
            ) && h.entry(h.worthy(candidates, now)[i].backend).admits(now),
        forall|i: int|
            0 <= i < candidates.len() && h.entry((#[trigger] candidates[i]).backend).at(
                now,
            ) is Healthy ==> h.worthy(candidates, now).contains(candidates[i]),
        h.has_trial(candidates, now) == h.has_trial(h.worthy(candidates, now), now),
        forall|i: int, j: int|
            0 <= i < j < h.worthy(candidates, now).len() ==> !(h.awaits_trial(
                (#[trigger] h.worthy(candidates, now)[i]).backend,
                now,
            ) && h.awaits_trial((#[trigger] h.worthy(candidates, now)[j]).backend, now)),
    decreases candidates.len(),
{
    if candidates.len() > 0 {
        let init = candidates.drop_last();
        lemma_worthy(h, init, now);
        let w0 = h.worthy(init, now);
        let w = h.worthy(candidates, now);
        assert forall|i: int| 0 <= i < w.len() implies candidates.contains(#[trigger] w[i])
            && h.entry(w[i].backend).admits(now) by {
            if i < w0.len() {
                assert(w[i] == w0[i]);
                let k = choose|k: int| 0 <= k < init.len() && init[k] == w0[i];
                assert(candidates[k] == w[i]);
            } else {
                assert(w[i] == candidates[candidates.len() - 1]);
            }
        }
        assert forall|i: int|
            0 <= i < candidates.len() && h.entry((#[trigger] candidates[i]).backend).at(
                now,
            ) is Healthy implies w.contains(candidates[i]) by {
            if i < init.len() {
                assert(init[i] == candidates[i]);
                let k = choose|k: int| 0 <= k < w0.len() && w0[k] == init[i];
                assert(w[k] == candidates[i]);
            } else {
                assert(w[w.len() - 1] == candidates[i]);
            }
        }
        if h.has_trial(candidates, now) {
            let k = choose|k: int|
                0 <= k < candidates.len() && h.awaits_trial(
                    (#[trigger] candidates[k]).backend,
                    now,
                );
            if k < init.len() {
                assert(init[k] == candidates[k]);
            }
            if h.has_trial(init, now) {
                let m = choose|m: int|
                    0 <= m < w0.len() && h.awaits_trial((#[trigger] w0[m]).backend, now);
                assert(w[m] == w0[m]);
            } else {
                assert(w[w.len() - 1] == candidates[k]);
            }
        }
        if h.has_trial(w, now) {
            let m = choose|m: int|
                0 <= m < w.len() && h.awaits_trial((#[trigger] w[m]).backend, now);
            assert(candidates.contains(w[m]));
            let k = choose|k: int| 0 <= k < candidates.len() && candidates[k] == w[m];
            assert(h.awaits_trial(candidates[k].backend, now));
        }
        assert forall|i: int, j: int| 0 <= i < j < w.len() implies !(h.awaits_trial(
            (#[trigger] w[i]).backend,
            now,
        ) && h.awaits_trial((#[trigger] w[j]).backend, now)) by {
            assert(w[i] == w0[i]);
            if j < w0.len() {
                assert(w[j] == w0[j]);
            } else if h.awaits_trial(w[i].backend, now) && h.awaits_trial(w[j].backend, now) {
                assert(h.has_trial(w0, now));
            }
        }
    }
}

/// An ejected backend, or one whose trial is out, is not offered while another
/// candidate is worth sending to; every healthy one is.
pub proof fn an_unworthy_backend_is_not_offered(
    h: HealthModel,
    candidates: Seq<BackendLoad>,
    b: Backend,
    k: int,
    now: u64,
)
    requires
        !h.entry(b).admits(now),
        0 <= k < candidates.len(),
        h.entry(candidates[k].backend).admits(now),
    ensures
        !offered(h.choices(candidates, now), b),
        h.entry(candidates[k].backend).at(now) is Healthy ==> offered(
            h.choices(candidates, now),
            candidates[k].backend,
        ),
{
    lemma_worthy(h, candidates, now);
    let w = h.worthy(candidates, now);
    if h.entry(candidates[k].backend).at(now) is Healthy {
        assert(w.contains(candidates[k]));
        let i = choose|i: int| 0 <= i < w.len() && w[i] == candidates[k];
        assert(w[i].backend == candidates[k].backend);
    } else {
        assert(h.has_trial(candidates, now));
        let i = choose|i: int|
            0 <= i < w.len() && h.awaits_trial((#[trigger] w[i]).backend, now);
        assert(w.len() > 0);
    }
}

/// At most one recovering backend is on offer at a time, and where one awaits
/// its trial there is one.
pub proof fn one_trial_is_offered(h: HealthModel, candidates: Seq<BackendLoad>, now: u64)
    requires
        h.has_trial(candidates, now),
    ensures
        exists|i: int|
            0 <= i < h.choices(candidates, now).len() && #[trigger] h.awaits_trial(
                h.choices(candidates, now)[i].backend,
                now,
            ) && forall|j: int|
                0 <= j < h.choices(candidates, now).len() && j != i ==> h.entry(
                    (#[trigger] h.choices(candidates, now)[j]).backend,
                ).at(now) is Healthy,
{
    lemma_worthy(h, candidates, now);
    let w = h.worthy(candidates, now);
    let i = choose|i: int| 0 <= i < w.len() && h.awaits_trial((#[trigger] w[i]).backend, now);
    assert(w.len() > 0);
    assert(h.choices(candidates, now) == w);
    assert(h.awaits_trial(w[i].backend, now));
    assert forall|j: int| 0 <= j < w.len() && j != i implies h.entry(
        (#[trigger] w[j]).backend,
    ).at(now) is Healthy by {
        if i < j {
            assert(!(h.awaits_trial(w[i].backend, now) && h.awaits_trial(w[j].backend, now)));
        } else {
            assert(!(h.awaits_trial(w[j].backend, now) && h.awaits_trial(w[i].backend, now)));
        }
    }
}

/// One trial request, not a share of traffic: once a half-open backend has been
/// chosen it admits nothing more until the outcome lands, however long that
/// takes.
pub proof fn a_recovering_backend_gets_one_trial(h: HealthModel, b: Backend, now: u64, then: u64)
    requires
        h.backends.contains_key(b),
        h.entry(b).at(now) is HalfOpen,
        then >= now,
    ensures
        h.entry(b).trial_in_flight || h.entry(b).admits(now),
        !h.after_claim(b, now).entry(b).admits(then),
{
}

/// Choosing another backend leaves a recovering one on offer.
pub proof fn a_declined_trial_stays_on_offer(h: HealthModel, a: Backend, b: Backend, now: u64)
    requires
        a != b,
    ensures
        h.after_claim(b, now).entry(a) == h.entry(a),
{
}

/// A failed trial ejects at once, and for up to twice as long, never past the
/// ceiling.
pub proof fn a_failed_trial_ejects_for_longer(h: HealthModel, b: Backend, now: u64)
    requires
        h.backends.contains_key(b),
        h.entry(b).trial_in_flight,
        h.policy.max_backoff > 0,
        h.entry(b).backoff > 0,
        now < u64::MAX,
    ensures
        ({
            let e = h.after_failure(b, now).entry(b);
            &&& e.at(now) is Ejected
            &&& !e.trial_in_flight
            &&& e.backoff <= h.policy.max_backoff
            &&& e.backoff >= h.entry(b).backoff || e.backoff == h.policy.max_backoff
        }),
{
}

/// Any success puts a backend back in rotation, with its run of failures and
/// its backoff cleared.
pub proof fn a_success_restores_a_backend(h: HealthModel, b: Backend, now: u64)
    ensures
        h.after_success(b).entry(b).at(now) is Healthy,
        h.after_success(b).entry(b).consecutive_failures == 0,
        h.after_success(b).entry(b).backoff == h.policy.base_backoff,
{
}

/// A run of `n` failures of one backend, at the given instants.
pub open spec fn after_failures(h: HealthModel, b: Backend, at: Seq<u64>) -> HealthModel
    decreases at.len(),
{
    if at.len() == 0 {
        h
    } else {
        after_failures(h, b, at.drop_last()).after_failure(b, at.last())
    }
}

/// Failures eject only in an unbroken run of the full length: after a success,
/// any shorter run leaves the backend in rotation and counts no ejection.
pub proof fn only_a_full_run_of_failures_ejects(
    h: HealthModel,
    b: Backend,
    at: Seq<u64>,
    now: u64,
)
    requires
        at.len() < h.policy.eject_after,
    ensures
        after_failures(h.after_success(b), b, at).entry(b).at(now) is Healthy,
        after_failures(h.after_success(b), b, at).ejections == h.ejections,
{
    lemma_short_run(h, b, at);
}

proof fn lemma_short_run(h: HealthModel, b: Backend, at: Seq<u64>)
    requires
        at.len() < h.policy.eject_after,
    ensures
        ({
            let g = after_failures(h.after_success(b), b, at);
            &&& g.policy == h.policy
            &&& g.backends.contains_key(b)
            &&& g.backends[b].consecutive_failures == at.len()
            &&& g.backends[b].ejected_until is None
            &&& !g.backends[b].trial_in_flight
            &&& g.ejections == h.ejections
            &&& g.backends[b].backoff == h.policy.base_backoff
        }),
    decreases at.len(),
{
    if at.len() > 0 {
        lemma_short_run(h, b, at.drop_last());
    }
}

/// A full run of failures ejects, from the instant of the last for the length
/// of the backoff.
pub proof fn a_full_run_of_failures_ejects(h: HealthModel, b: Backend, at: Seq<u64>, now: u64)
    requires
        at.len() == h.policy.eject_after,
        at.len() > 0,
        at.last() <= now < later(at.last(), h.policy.base_backoff),
    ensures
        after_failures(h.after_success(b), b, at).entry(b).at(now) is Ejected,
{
    lemma_short_run(h, b, at.drop_last());
}

/// What happens to one backend says nothing about another, and changes no policy.
pub proof fn backends_are_judged_one_by_one(h: HealthModel, a: Backend, b: Backend, now: u64)
    requires
        a != b,
    ensures
        h.after_failure(b, now).entry(a) == h.entry(a),
        h.after_success(b).entry(a) == h.entry(a),
        h.after_claim(b, now).entry(a) == h.entry(a),
        h.after_failure(b, now).policy == h.policy,
        h.after_success(b).policy == h.policy,
        h.after_claim(b, now).policy == h.policy,
        h.after_success(b).ejections == h.ejections,
{
}

/// An ejected backend is out until its backoff is over, to the instant, and then
/// gets its trial; a failed trial doubles the backoff, up to the ceiling.
pub proof fn an_ejection_lasts_as_long_as_its_backoff(
    h: HealthModel,
    b: Backend,
    now: u64,
    then: u64,
)
    requires
        h.entry(b).ejected_until is None,
        !h.entry(b).trial_in_flight,
        h.entry(b).consecutive_failures < u32::MAX,
        h.entry(b).consecutive_failures + 1 >= h.policy.eject_after,
        now + h.entry(b).backoff <= u64::MAX,
    ensures
        ({
            let e = h.after_failure(b, now).entry(b);
            &&& e.at(then) is Ejected <==> then < now + h.entry(b).backoff
            &&& e.at(then) is HalfOpen <==> then >= now + h.entry(b).backoff
            &&& h.ejections < u64::MAX ==> h.after_failure(b, now).ejections == h.ejections + 1
            &&& e.consecutive_failures == h.entry(b).consecutive_failures + 1
            &&& e.backoff == h.entry(b).backoff
        }),
{
}

/// A failed trial doubles the backoff, up to the ceiling, and the next trial
/// comes when that is over.
pub proof fn a_failed_trial_doubles_the_backoff(h: HealthModel, b: Backend, now: u64, then: u64)
    requires
        h.entry(b).trial_in_flight,
        2 * h.entry(b).backoff <= u64::MAX,
        now + 2 * h.entry(b).backoff <= u64::MAX,
        now + h.policy.max_backoff <= u64::MAX,
    ensures
        ({
            let e = h.after_failure(b, now).entry(b);
            let longer = if 2 * h.entry(b).backoff > h.policy.max_backoff {
                h.policy.max_backoff as int
            } else {
                2 * h.entry(b).backoff
            };
            &&& e.backoff == longer
            &&& e.at(then) is Ejected <==> then < now + longer
            &&& e.at(then) is HalfOpen <==> then >= now + longer
            &&& !e.trial_in_flight
        }),
{
}

/// The balancer is offered every healthy candidate, with its load and in order,
/// whenever any candidate is worth a try.
pub proof fn every_healthy_candidate_is_offered(
    h: HealthModel,
    candidates: Seq<BackendLoad>,
    now: u64,
)
    requires
        exists|i: int|
            0 <= i < candidates.len() && h.entry((#[trigger] candidates[i]).backend).at(
                now,
            ) is Healthy,
    ensures
        h.choices(candidates, now).filter(
            |c: BackendLoad| h.entry(c.backend).at(now) is Healthy,
        ) == candidates.filter(|c: BackendLoad| h.entry(c.backend).at(now) is Healthy),
{
    lemma_healthy_kept(h, candidates, now);
    lemma_worthy(h, candidates, now);
    let i = choose|i: int|
        0 <= i < candidates.len() && h.entry((#[trigger] candidates[i]).backend).at(
            now,
        ) is Healthy;
    assert(h.worthy(candidates, now).contains(candidates[i]));
}

proof fn lemma_healthy_kept(h: HealthModel, candidates: Seq<BackendLoad>, now: u64)
    ensures
        h.worthy(candidates, now).filter(
            |c: BackendLoad| h.entry(c.backend).at(now) is Healthy,
        ) == candidates.filter(|c: BackendLoad| h.entry(c.backend).at(now) is Healthy),
    decreases candidates.len(),
{
    reveal(Seq::filter);
    if candidates.len() > 0 {
        let init = candidates.drop_last();
        lemma_healthy_kept(h, init, now);
        let kept = h.worthy(init, now);
        assert(kept.push(candidates.last()).drop_last() =~= kept);
    }
}

/// The backends in rotation are counted, each once.
pub proof fn the_healthy_are_counted(h: HealthModel, backends: Seq<Backend>, now: u64)
    ensures
        h.in_rotation(backends, now) == backends.filter(
            |b: Backend| h.entry(b).at(now) is Healthy,
        ).len(),
    decreases backends.len(),
{
    reveal(Seq::filter);
    if backends.len() > 0 {
        the_healthy_are_counted(h, backends.drop_last(), now);
    }
}

} // verus!
