//! Load balancing across upstream backends.
//!
//! Least-outstanding-streams via power-of-two-choices: sample two backends at
//! random, send the request to whichever has fewer streams in flight. Round-robin
//! is blind to a backend that has become slow, and true least-loaded compares
//! every backend on every request; two random samples land within a constant
//! factor of optimal while looking at two counters.
//!
//! The resilience half lives beside it rather than inside it: [`crate::health`]
//! filters the candidate list before [`LoadBalancer::pick`] ever sees it.

use vstd::prelude::*;

verus! {

/// Where a backend listens.
#[derive(Clone, Copy, PartialEq, Eq, Hash, Debug, Structural)]
pub enum Address {
    V4 { ip: u32, port: u16 },
    V6 { ip: u128, port: u16, flow: u32, scope: u32 },
}

impl Address {
    /// The IPv4 address `a.b.c.d` at `port`.
    pub fn v4(a: u8, b: u8, c: u8, d: u8, port: u16) -> (r: Self)
        ensures
            r == (Address::V4 {
                ip: (a * 0x100_0000 + b * 0x1_0000 + c * 0x100 + d) as u32,
                port,
            }),
    {
        let ip: u32 = a as u32 * 0x100_0000 + b as u32 * 0x1_0000 + c as u32 * 0x100 + d as u32;
        Address::V4 { ip, port }
    }
}

/// An upstream backend the load balancer can select. Identified by its address;
/// per-backend load and health state live elsewhere.
#[derive(Clone, Copy, PartialEq, Eq, Hash, Debug, Structural)]
pub struct Backend {
    pub addr: Address,
}

impl Backend {
    pub fn new(addr: Address) -> (b: Self)
        ensures
            b.addr == addr,
    {
        Backend { addr }
    }
}

/// A backend and how busy it is right now.
#[derive(Clone, Copy, PartialEq, Eq, Debug, Structural)]
pub struct BackendLoad {
    pub backend: Backend,
    /// Streams currently in flight to this backend across every pooled
    /// connection.
    pub outstanding: usize,
}

/// `b` is the backend of one of the candidates.
pub open spec fn offered(candidates: Seq<BackendLoad>, b: Backend) -> bool {
    exists|i: int| 0 <= i < candidates.len() && (#[trigger] candidates[i]).backend == b
}

/// The load-balancing seam.
pub trait LoadBalancer {
    /// Chooses a backend for a new request, or `None` if the candidate list is
    /// empty.
    fn pick(&mut self, candidates: &[BackendLoad]) -> (r: Option<Backend>)
        ensures
            match r {
                None => candidates@.len() == 0,
                Some(b) => offered(candidates@, b),
            },
    ;
}

/// One step of the xorshift generator.
pub open spec fn xorshift(x: u64) -> u64 {
    let x = x ^ (x << 13u64);
    let x = x ^ (x >> 7u64);
    x ^ (x << 17u64)
}

/// The two positions a state samples among `n`.
pub open spec fn sampled(state: u64, n: nat) -> (int, int) {
    let s1 = xorshift(state);
    let s2 = xorshift(s1);
    let first = s1 as int % n as int;
    let second = s2 as int % (n - 1);
    (
        first,
        if second >= first {
            second + 1
        } else {
            second
        },
    )
}

/// What a generator in `state` picks.
pub open spec fn picked(state: u64, candidates: Seq<BackendLoad>) -> Option<Backend> {
    if candidates.len() == 0 {
        None
    } else if candidates.len() == 1 {
        Some(candidates[0].backend)
    } else {
        let (first, second) = sampled(state, candidates.len());
        let a = candidates[first];
        let b = candidates[second];
        Some(
            if a.outstanding <= b.outstanding {
                a.backend
            } else {
                b.backend
            },
        )
    }
}

/// The state after a pick: two draws where there is a choice to make.
pub open spec fn state_after(state: u64, n: nat) -> u64 {
    if n < 2 {
        state
    } else {
        xorshift(xorshift(state))
    }
}

/// Least-outstanding-streams via power-of-two-choices.
///
/// The choice must be spread, not unpredictable, so a xorshift is all it needs.
#[derive(Debug)]
pub struct PowerOfTwoChoices {
    pub state: u64,
}

impl PowerOfTwoChoices {
    pub fn new() -> (p: Self)
        ensures
            p.state == 0x2545_f491_4f6c_dd1du64,
    {
        PowerOfTwoChoices::seeded(0x2545_f491_4f6c_dd1d)
    }

    pub fn seeded(seed: u64) -> (p: Self)
        ensures
            p.state == seed,
    {
        PowerOfTwoChoices { state: seed }
    }

    fn next(&mut self) -> (x: u64)
        ensures
            x == xorshift(old(self).state),
            final(self).state == x,
    {
        let mut x = self.state;
        x = x ^ (x << 13);
        x = x ^ (x >> 7);
        x = x ^ (x << 17);
        self.state = x;
        x
    }
}

impl Default for PowerOfTwoChoices {
    fn default() -> (p: Self)
        ensures
            p.state == 0x2545_f491_4f6c_dd1du64,
    {
        PowerOfTwoChoices::new()
    }
}

impl LoadBalancer for PowerOfTwoChoices {
    fn pick(&mut self, candidates: &[BackendLoad]) -> (r: Option<Backend>)
        ensures
            r == picked(old(self).state, candidates@),
            final(self).state == state_after(old(self).state, candidates@.len()),
    {
        let n = candidates.len();
        if n == 0 {
            return None;
        }
        if n == 1 {
            assert(offered(candidates@, candidates@[0].backend));
            return Some(candidates[0].backend);
        }
        let ghost state = self.state;
        let first = (self.next() % n as u64) as usize;
        // Sample the other n-1 and shift, so the two draws are always distinct.
        let mut second = (self.next() % (n as u64 - 1)) as usize;
        if second >= first {
            second = second + 1;
        }
        assert(sampled(state, n as nat) == (first as int, second as int));
        let a = candidates[first];
        let b = candidates[second];
        assert(candidates@[first as int].backend == a.backend);
        assert(candidates@[second as int].backend == b.backend);
        Some(
            if a.outstanding <= b.outstanding {
                a.backend
            } else {
                b.backend
            },
        )
    }
}

// ---------------------------------------------------------------------------
// Laws
// ---------------------------------------------------------------------------

/// The two samples are always two different candidates.
pub proof fn the_samples_are_distinct(state: u64, n: nat)
    requires
        n >= 2,
    ensures
        0 <= sampled(state, n).0 < n,
        0 <= sampled(state, n).1 < n,
        sampled(state, n).0 != sampled(state, n).1,
{
    let s1 = xorshift(state) as int;
    let s2 = xorshift(xorshift(state)) as int;
    vstd::arithmetic::div_mod::lemma_mod_bound(s1, n as int);
    vstd::arithmetic::div_mod::lemma_mod_bound(s2, n - 1);
}

/// What is picked is never busier than the other sample: with two candidates,
/// the idler one wins every time.
pub proof fn the_idler_sample_wins(state: u64, candidates: Seq<BackendLoad>)
    requires
        candidates.len() >= 2,
    ensures
        ({
            let (i, j) = sampled(state, candidates.len());
            let p = picked(state, candidates)->0;
            &&& p == candidates[i].backend || p == candidates[j].backend
            &&& candidates[i].outstanding < candidates[j].outstanding ==> p
                == candidates[i].backend
            &&& candidates[j].outstanding < candidates[i].outstanding ==> p
                == candidates[j].backend
        }),
        candidates.len() == 2 && candidates[1].outstanding < candidates[0].outstanding ==> picked(
            state,
            candidates,
        ) == Some(candidates[1].backend),
        candidates.len() == 2 && candidates[0].outstanding < candidates[1].outstanding ==> picked(
            state,
            candidates,
        ) == Some(candidates[0].backend),
{
    the_samples_are_distinct(state, candidates.len());
}

/// A generator that is not stuck never becomes so.
pub proof fn the_generator_never_sticks(x: u64)
    requires
        x != 0,
    ensures
        xorshift(x) != 0,
{
    let a = x ^ (x << 13u64);
    assert(a != 0) by (bit_vector)
        requires
            x != 0,
            a == x ^ (x << 13u64),
    ;
    let b = a ^ (a >> 7u64);
    assert(b != 0) by (bit_vector)
        requires
            a != 0,
            b == a ^ (a >> 7u64),
    ;
    assert(b ^ (b << 17u64) != 0) by (bit_vector)
        requires
            b != 0,
    ;
}

/// Every number is drawn from some state, and from one only.
pub proof fn every_number_can_be_drawn(y: u64)
    ensures
        exists|state: u64| #[trigger] xorshift(state) == y,
        forall|a: u64, b: u64| #[trigger] xorshift(a) == #[trigger] xorshift(b) ==> a == b,
{
    let b = y ^ (y << 17u64) ^ (y << 34u64) ^ (y << 51u64);
    let a = b ^ (b >> 7u64) ^ (b >> 14u64) ^ (b >> 21u64) ^ (b >> 28u64) ^ (b >> 35u64) ^ (b
        >> 42u64) ^ (b >> 49u64) ^ (b >> 56u64) ^ (b >> 63u64);
    let x = a ^ (a << 13u64) ^ (a << 26u64) ^ (a << 39u64) ^ (a << 52u64);
    assert(x ^ (x << 13u64) == a) by (bit_vector)
        requires
            x == a ^ (a << 13u64) ^ (a << 26u64) ^ (a << 39u64) ^ (a << 52u64),
    ;
    assert(a ^ (a >> 7u64) == b) by (bit_vector)
        requires
            a == b ^ (b >> 7u64) ^ (b >> 14u64) ^ (b >> 21u64) ^ (b >> 28u64) ^ (b >> 35u64) ^ (b
                >> 42u64) ^ (b >> 49u64) ^ (b >> 56u64) ^ (b >> 63u64),
    ;
    assert(b ^ (b << 17u64) == y) by (bit_vector)
        requires
            b == y ^ (y << 17u64) ^ (y << 34u64) ^ (y << 51u64),
    ;
    assert(xorshift(x) == y);
    assert forall|p: u64, q: u64| #[trigger] xorshift(p) == #[trigger] xorshift(q) implies p
        == q by {
        let p1 = p ^ (p << 13u64);
        let q1 = q ^ (q << 13u64);
        let p2 = p1 ^ (p1 >> 7u64);
        let q2 = q1 ^ (q1 >> 7u64);
        assert(p2 == q2) by (bit_vector)
            requires
                p2 ^ (p2 << 17u64) == q2 ^ (q2 << 17u64),
        ;
        assert(p1 == q1) by (bit_vector)
            requires
                p1 ^ (p1 >> 7u64) == q1 ^ (q1 >> 7u64),
        ;
        assert(p == q) by (bit_vector)
            requires
                p ^ (p << 13u64) == q ^ (q << 13u64),
        ;
    }
}

/// The samples are the two draws, reduced to the number of candidates: the first
/// draw and the first sample leave the same rest, and so do the second draw and
/// the second sample among the candidates that are left.
pub proof fn the_samples_range_over_all_candidates(state: u64, n: nat)
    requires
        n >= 2,
    ensures
        ({
            let (i, j) = sampled(state, n);
            let left = if j < i {
                j
            } else {
                j - 1
            };
            &&& 0 <= i < n
            &&& 0 <= left < n - 1
            &&& exists|q: int| #[trigger] (q * n) + i == xorshift(state)
            &&& exists|q: int| #[trigger] (q * (n - 1)) + left == xorshift(xorshift(state))
        }),
{
    let s1 = xorshift(state) as int;
    let s2 = xorshift(xorshift(state)) as int;
    the_samples_are_distinct(state, n);
    vstd::arithmetic::div_mod::lemma_fundamental_div_mod(s1, n as int);
    vstd::arithmetic::div_mod::lemma_fundamental_div_mod(s2, n - 1);
    vstd::arithmetic::div_mod::lemma_mod_bound(s2, n - 1);
    let (i, j) = sampled(state, n);
    let left = if j < i {
        j
    } else {
        j - 1
    };
    assert((s1 / n as int) * n + i == s1) by (nonlinear_arith)
        requires
            s1 == n * (s1 / n as int) + i,
    ;
    let m = n - 1;
    assert((s2 / m) * m + left == s2) by (nonlinear_arith)
        requires
            s2 == m * (s2 / m) + left,
    ;
}

/// Every candidate can be picked: one that is idler than all the others is, in
/// some state of the generator that is not stuck; and one that is busier than all
/// the others never is, in any state.
pub proof fn every_candidate_can_be_picked(candidates: Seq<BackendLoad>, k: int)
    requires
        2 <= candidates.len() <= u64::MAX,
        0 <= k < candidates.len(),
    ensures
        (forall|i: int|
            0 <= i < candidates.len() && i != k ==> candidates[k].outstanding < (
            #[trigger] candidates[i]).outstanding) ==> exists|state: u64|
            state != 0 && #[trigger] picked(state, candidates) == Some(candidates[k].backend),
        (forall|i: int|
            0 <= i < candidates.len() && i != k ==> (#[trigger] candidates[i]).outstanding
                < candidates[k].outstanding && candidates[i].backend != candidates[k].backend)
            ==> forall|state: u64| #[trigger]
            picked(state, candidates) != Some(candidates[k].backend),
{
    let n = candidates.len();
    let y: u64 = if k == 0 {
        n as u64
    } else {
        k as u64
    };
    every_number_can_be_drawn(y);
    let state = choose|state: u64| #[trigger] xorshift(state) == y;
    assert(state != 0) by {
        if state == 0 {
            assert(0u64 ^ (0u64 << 13u64) == 0) by (bit_vector);
            assert(0u64 ^ (0u64 >> 7u64) == 0) by (bit_vector);
            assert(0u64 ^ (0u64 << 17u64) == 0) by (bit_vector);
            assert(xorshift(0) == 0);
        }
    }
    assert(sampled(state, n).0 == k) by {
        if k == 0 {
            vstd::arithmetic::div_mod::lemma_mod_self_0(n as int);
        } else {
            vstd::arithmetic::div_mod::lemma_small_mod(k as nat, n);
        }
    }
    the_samples_are_distinct(state, n);
    the_idler_sample_wins(state, candidates);
    assert forall|state: u64| (forall|i: int|
        0 <= i < candidates.len() && i != k ==> (#[trigger] candidates[i]).outstanding
            < candidates[k].outstanding && candidates[i].backend
            != candidates[k].backend) implies #[trigger] picked(state, candidates) != Some(
        candidates[k].backend,
    ) by {
        the_samples_are_distinct(state, n);
        the_idler_sample_wins(state, candidates);
        let (i, j) = sampled(state, n);
        assert(candidates[i].outstanding <= candidates[k].outstanding);
        assert(candidates[j].outstanding <= candidates[k].outstanding);
    }
}

/// A pick moves the generator on where there was a choice to make, and leaves it
/// alone where there was none; so the same pair is not drawn over and over.
pub proof fn a_pick_moves_the_generator_on(state: u64, n: nat)
    requires
        state != 0,
    ensures
        n < 2 ==> state_after(state, n) == state,
        n >= 2 ==> state_after(state, n) == xorshift(xorshift(state)) && state_after(state, n) != 0,
{
    the_generator_never_sticks(state);
    the_generator_never_sticks(xorshift(state));
}

} // verus!
