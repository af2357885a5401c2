//! Active liveness probing for one upstream connection.
//!
//! A backend can accept TCP, complete a handshake, and then answer nothing. No
//! passive check sees that: the requests on it do not fail, they hang. A PING
//! has an answer obliged by §6.7, so an unanswered one is evidence rather than
//! inference.
//!
//! Instants and durations are counts of nanoseconds on a clock of the caller's
//! choosing. Sums that would pass the largest count are held at it.

use vstd::prelude::*;

verus! {

/// The eight octets of `n`, most significant first.
pub open spec fn be64(n: u64) -> Seq<u8> {
    seq![
        (n >> 56u64) as u8,
        (n >> 48u64) as u8,
        (n >> 40u64) as u8,
        (n >> 32u64) as u8,
        (n >> 24u64) as u8,
        (n >> 16u64) as u8,
        (n >> 8u64) as u8,
        n as u8,
    ]
}

/// Different numbers have different octets.
pub proof fn lemma_be64_injective(a: u64, b: u64)
    requires
        be64(a) == be64(b),
    ensures
        a == b,
{
    assert(be64(a)[0] == be64(b)[0]);
    assert(be64(a)[1] == be64(b)[1]);
    assert(be64(a)[2] == be64(b)[2]);
    assert(be64(a)[3] == be64(b)[3]);
    assert(be64(a)[4] == be64(b)[4]);
    assert(be64(a)[5] == be64(b)[5]);
    assert(be64(a)[6] == be64(b)[6]);
    assert(be64(a)[7] == be64(b)[7]);
    assert(a == b) by (bit_vector)
        requires
            (a >> 56u64) as u8 == (b >> 56u64) as u8,
            (a >> 48u64) as u8 == (b >> 48u64) as u8,
            (a >> 40u64) as u8 == (b >> 40u64) as u8,
            (a >> 32u64) as u8 == (b >> 32u64) as u8,
            (a >> 24u64) as u8 == (b >> 24u64) as u8,
            (a >> 16u64) as u8 == (b >> 16u64) as u8,
            (a >> 8u64) as u8 == (b >> 8u64) as u8,
            a as u8 == b as u8,
    ;
}

/// The payload of the probe numbered `n`.
fn nonce_of(n: u64) -> (nonce: [u8; 8])
    ensures
        nonce@ == be64(n),
{
    let nonce: [u8; 8] = [
        (n >> 56) as u8,
        (n >> 48) as u8,
        (n >> 40) as u8,
        (n >> 32) as u8,
        (n >> 24) as u8,
        (n >> 16) as u8,
        (n >> 8) as u8,
        n as u8,
    ];
    assert(nonce@ =~= be64(n));
    nonce
}

/// Whether two payloads are the same.
fn same_nonce(a: &[u8; 8], b: &[u8; 8]) -> (same: bool)
    ensures
        same == (a@ == b@),
{
    let mut i: usize = 0;
    while i < 8
        invariant
            i <= 8,
            forall|j: int| 0 <= j < i ==> a@[j] == b@[j],
        decreases 8 - i,
    {
        if a[i] != b[i] {
            return false;
        }
        i += 1;
    }
    assert(a@ =~= b@);
    true
}

/// A sum of counts, held at the largest.
pub open spec fn later(at: u64, by: u64) -> u64 {
    if at + by > u64::MAX {
        u64::MAX
    } else {
        (at + by) as u64
    }
}

/// How long after `since` `now` is; none where it is not after it.
pub open spec fn elapsed(now: u64, since: u64) -> u64 {
    if now < since {
        0
    } else {
        (now - since) as u64
    }
}

/// A probe on the wire.
#[derive(Clone, Copy, Debug)]
pub struct Outstanding {
    /// The payload, so an ACK can be matched to the PING that asked for it.
    pub nonce: [u8; 8],
    /// When it went out. Anything heard after this answers it.
    pub sent_at: u64,
    pub deadline: u64,
}

/// What the probe timer wants done when it fires.
#[derive(Clone, Copy, PartialEq, Eq, Debug)]
pub enum ProbeAction {
    /// Not due yet, or probing is off.
    Nothing,
    /// Send a PING carrying this payload.
    Send([u8; 8]),
    /// The backend never answered. Give up on the connection.
    Expired,
}

/// What an action says.
pub enum ActionModel {
    Nothing,
    Send(Seq<u8>),
    Expired,
}

impl View for ProbeAction {
    type V = ActionModel;

    open spec fn view(&self) -> ActionModel {
        match self {
            ProbeAction::Nothing => ActionModel::Nothing,
            ProbeAction::Send(nonce) => ActionModel::Send(nonce@),
            ProbeAction::Expired => ActionModel::Expired,
        }
    }
}

/// Liveness probing: how quiet the socket must be before a probe is worth
/// sending, and what became of the last one.
#[derive(Clone, Copy, Debug)]
pub struct Probe {
    /// How long the socket must be silent before a probe is worth sending. Zero
    /// disables probing entirely.
    pub idle: u64,
    /// How long to wait for an answer before calling the backend dead.
    pub timeout: u64,
    /// The last time the backend said anything at all.
    pub last_heard: u64,
    /// The probe awaiting an answer.
    pub outstanding: Option<Outstanding>,
    pub next_nonce: u64,
}

/// What a probe on the wire says.
#[verifier::ext_equal]
pub struct OutstandingModel {
    pub nonce: Seq<u8>,
    pub sent_at: u64,
    pub deadline: u64,
}

/// What a prober holds.
#[verifier::ext_equal]
pub struct ProbeModel {
    pub idle: u64,
    pub timeout: u64,
    pub last_heard: u64,
    pub outstanding: Option<OutstandingModel>,
    pub next_nonce: u64,
}

impl View for Probe {
    type V = ProbeModel;

    open spec fn view(&self) -> ProbeModel {
        ProbeModel {
            idle: self.idle,
            timeout: self.timeout,
            last_heard: self.last_heard,
            outstanding: match self.outstanding {
                Some(o) => Some(
                    OutstandingModel { nonce: o.nonce@, sent_at: o.sent_at, deadline: o.deadline },
                ),
                None => None,
            },
            next_nonce: self.next_nonce,
        }
    }
}

impl ProbeModel {
    /// A prober that has heard from the backend at `now` and asked nothing yet.
    pub open spec fn fresh(idle: u64, timeout: u64, now: u64) -> ProbeModel {
        ProbeModel { idle, timeout, last_heard: now, outstanding: None, next_nonce: 1 }
    }

    /// What the timer wants at `now`.
    ///
    /// A probe past its deadline is given up on only where nothing at all was
    /// heard since it went out: what a probe detects is silence. A quiet socket
    /// with no probe out gets one.
    pub open spec fn after_due(self, now: u64) -> (ProbeModel, ActionModel) {
        if self.idle == 0 {
            (self, ActionModel::Nothing)
        } else {
            match self.outstanding {
                Some(o) => if now < o.deadline {
                    (self, ActionModel::Nothing)
                } else if self.last_heard > o.sent_at {
                    (ProbeModel { outstanding: None, ..self }, ActionModel::Nothing)
                } else {
                    (self, ActionModel::Expired)
                },
                None => if elapsed(now, self.last_heard) >= self.idle {
                    let nonce = be64(self.next_nonce);
                    (
                        ProbeModel {
                            outstanding: Some(
                                OutstandingModel {
                                    nonce,
                                    sent_at: now,
                                    deadline: later(now, self.timeout),
                                },
                            ),
                            next_nonce: later(self.next_nonce, 1),
                            ..self
                        },
                        ActionModel::Send(nonce),
                    )
                } else {
                    (self, ActionModel::Nothing)
                },
            }
        }
    }

    /// A PING ACK arrived at `now`: it is traffic whatever it carries, and it
    /// ends the probe whose payload it carries.
    pub open spec fn after_ack(self, data: Seq<u8>, now: u64) -> (ProbeModel, bool) {
        match self.outstanding {
            Some(o) => if o.nonce == data {
                (ProbeModel { last_heard: now, outstanding: None, ..self }, true)
            } else {
                (ProbeModel { last_heard: now, ..self }, false)
            },
            None => (ProbeModel { last_heard: now, ..self }, false),
        }
    }
}

impl Probe {
    /// A prober whose clock starts at `now`.
    pub fn new(idle: u64, timeout: u64, now: u64) -> (p: Self)
        ensures
            p@ == ProbeModel::fresh(idle, timeout, now),
    {
        Probe { idle, timeout, last_heard: now, outstanding: None, next_nonce: 1 }
    }

    /// Probing off: the default for a connection nobody configured.
    pub fn disabled() -> (p: Self)
        ensures
            p@ == ProbeModel::fresh(0, 0, 0),
    {
        Probe::new(0, 0, 0)
    }

    /// Whether probing is on.
    pub fn enabled(&self) -> (b: bool)
        ensures
            b == (self@.idle != 0),
    {
        self.idle != 0
    }

    /// Anything from the backend counts as liveness, so an ordinary busy
    /// connection never probes at all.
    pub fn heard(&mut self, now: u64)
        ensures
            final(self)@ == (ProbeModel { last_heard: now, ..old(self)@ }),
    {
        self.last_heard = now;
    }

    /// When the loop next needs waking for this. `None` parks it indefinitely.
    pub fn next_wake(&self) -> (r: Option<u64>)
        ensures
            r == (if self@.idle == 0 {
                None
            } else {
                match self@.outstanding {
                    Some(o) => Some(o.deadline),
                    None => Some(later(self@.last_heard, self@.idle)),
                }
            }),
    {
        if !self.enabled() {
            return None;
        }
        match self.outstanding {
            Some(probe) => Some(probe.deadline),
            None => Some(self.last_heard.saturating_add(self.idle)),
        }
    }

    /// What the timer wants done at `now`.
    pub fn due(&mut self, now: u64) -> (action: ProbeAction)
        ensures
            final(self)@ == old(self)@.after_due(now).0,
            action@ == old(self)@.after_due(now).1,
    {
        if !self.enabled() {
            return ProbeAction::Nothing;
        }
        match self.outstanding {
            Some(probe) => {
                if now < probe.deadline {
                    return ProbeAction::Nothing;
                }
                // Anything heard since the probe went out answers it, ACK or
                // not: a backend streaming a response is demonstrably there.
                if self.last_heard > probe.sent_at {
                    self.outstanding = None;
                    return ProbeAction::Nothing;
                }
                ProbeAction::Expired
            },
            None => {
                if now.saturating_sub(self.last_heard) < self.idle {
                    return ProbeAction::Nothing;
                }
                let nonce = nonce_of(self.next_nonce);
                self.next_nonce = self.next_nonce.saturating_add(1);
                self.outstanding = Some(
                    Outstanding { nonce, sent_at: now, deadline: now.saturating_add(self.timeout) },
                );
                ProbeAction::Send(nonce)
            },
        }
    }

    /// A PING ACK arrived. `true` if it was the one we were waiting for, which
    /// ends the probe early rather than waiting out its deadline.
    pub fn acked(&mut self, data: &[u8; 8], now: u64) -> (b: bool)
        ensures
            final(self)@ == old(self)@.after_ack(data@, now).0,
            b == old(self)@.after_ack(data@, now).1,
    {
        self.heard(now);
        match self.outstanding {
            Some(probe) => {
                if same_nonce(&probe.nonce, data) {
                    self.outstanding = None;
                    true
                } else {
                    false
                }
            },
            None => false,
        }
    }
}

// ---------------------------------------------------------------------------
// Laws
// ---------------------------------------------------------------------------

/// Only silence ends a connection: whatever the backend said after the probe
/// went out keeps it, ACK or not.
pub proof fn only_silence_expires_a_probe(p: ProbeModel, heard_at: u64, now: u64)
    requires
        p.outstanding is Some,
        heard_at > p.outstanding->0.sent_at,
    ensures
        (ProbeModel { last_heard: heard_at, ..p }).after_due(now).1 is Nothing,
{
}

/// A backend that says nothing until the deadline is given up on.
pub proof fn silence_expires_a_probe(p: ProbeModel, asked_at: u64, now: u64)
    requires
        p.outstanding is None,
        p.after_due(asked_at).1 is Send,
        p.last_heard <= asked_at,
        now >= later(asked_at, p.timeout),
    ensures
        p.after_due(asked_at).0.after_due(now).1 is Expired,
{
}

/// No two probes carry the same payload, so this round's ACK cannot answer the
/// next round's question.
pub proof fn probes_never_share_a_payload(p: ProbeModel, asked_at: u64, acked_at: u64, now: u64)
    requires
        p.after_due(asked_at).1 is Send,
        p.next_nonce < u64::MAX,
    ensures
        ({
            let (q, first) = p.after_due(asked_at);
            let q = q.after_ack(first->Send_0, acked_at).0;
            q.after_due(now).1 matches ActionModel::Send(second) ==> second != first->Send_0
        }),
{
    if be64(p.next_nonce) == be64(later(p.next_nonce, 1)) {
        lemma_be64_injective(p.next_nonce, later(p.next_nonce, 1));
    }
}

/// A prober that is off never wakes anyone and never asks.
pub proof fn a_disabled_probe_does_nothing(p: ProbeModel, now: u64)
    requires
        p.idle == 0,
    ensures
        p.after_due(now) == (p, ActionModel::Nothing),
{
}

} // verus!
