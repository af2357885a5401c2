//! How many streams client connections are told they may open.
//!
//! The controlled quantity is the total across every client connection; what each
//! connection is told is that total divided by the number of claimants. The shape
//! is TCP Reno's: an immediate halving on distress, a geometric return to the last
//! level known to be servable, and a cautious climb above it.

use vstd::prelude::*;

verus! {

/// The fewest streams a client connection is ever told it may open. Never zero,
/// which stalls the connection, and not one, which serialises it.
pub const MIN_ADMIT: u32 = 2;

/// The floor on the total, so an idle proxy is never throttled to nothing.
pub const MIN_TOTAL: u32 = 64;

/// The state of the control loop.
#[derive(Clone, Copy, PartialEq, Eq, Debug, Structural)]
pub struct Admission {
    /// What one client connection is currently told.
    pub advertised: u32,
    /// The total the loop is steering.
    pub admit_total: u64,
    /// The last total known to be servable.
    pub ssthresh: u64,
    /// How much had been shed at the previous sample.
    pub last_shed: u64,
    /// The most one connection may ever be told.
    pub ceiling: u32,
}

/// The number of claimants: never none.
pub open spec fn claimants(conns: usize) -> nat {
    if conns == 0 {
        1
    } else {
        conns as nat
    }
}

/// A product of counts, held at the largest.
pub open spec fn held_product(a: nat, b: nat) -> nat {
    if a * b > u64::MAX {
        u64::MAX as nat
    } else {
        a * b
    }
}

impl Admission {
    /// Before the first sample: everything is allowed up to the ceiling, and
    /// the total is unbounded.
    pub open spec fn opening(ceiling: u32) -> Admission {
        Admission {
            advertised: ceiling,
            admit_total: u64::MAX,
            ssthresh: u64::MAX,
            last_shed: 0,
            ceiling,
        }
    }

    /// The most the total may be.
    pub open spec fn ceiling_total(self, conns: usize) -> nat {
        held_product(self.ceiling as nat, claimants(conns))
    }

    /// The bounds of the loop leave it room: the ceiling is not below the floor,
    /// for one connection and for all.
    pub open spec fn steerable(self, conns: usize) -> bool {
        self.ceiling >= MIN_ADMIT && self.ceiling_total(conns) >= MIN_TOTAL
    }

    /// Where the loop is, within its bounds.
    pub open spec fn current(self, conns: usize) -> nat {
        if self.admit_total < MIN_TOTAL {
            MIN_TOTAL as nat
        } else if self.admit_total > self.ceiling_total(conns) {
            self.ceiling_total(conns)
        } else {
            self.admit_total as nat
        }
    }

    /// Something has gone wrong since the previous sample: requests were shed,
    /// or are about to be.
    pub open spec fn distressed(self, shed_total: u64, near: bool) -> bool {
        shed_total > self.last_shed || near
    }

    /// Half, but not below the floor.
    pub open spec fn retreated(self, conns: usize) -> nat {
        let half = self.current(conns) / 2;
        if half < MIN_TOTAL {
            MIN_TOTAL as nat
        } else {
            half
        }
    }

    /// Back towards the last servable level by doubling, or above it by a
    /// sixteenth and at least one stream for each connection.
    pub open spec fn advanced(self, conns: usize) -> nat {
        let current = self.current(conns);
        let wanted = if current < self.ssthresh {
            2 * current
        } else {
            let sixteenth = current / 16;
            current + if sixteenth > claimants(conns) {
                sixteenth
            } else {
                claimants(conns)
            }
        };
        if wanted > self.ceiling_total(conns) {
            self.ceiling_total(conns)
        } else {
            wanted
        }
    }

    /// The loop after a sample.
    pub open spec fn after_sample(self, conns: usize, shed_total: u64, near: bool) -> Admission {
        let distressed = self.distressed(shed_total, near);
        let total = if distressed {
            self.retreated(conns)
        } else {
            self.advanced(conns)
        };
        let share = total / claimants(conns);
        Admission {
            advertised: if share < MIN_ADMIT {
                MIN_ADMIT
            } else if share > self.ceiling {
                self.ceiling
            } else {
                share as u32
            },
            admit_total: total as u64,
            ssthresh: if distressed {
                total as u64
            } else {
                self.ssthresh
            },
            last_shed: shed_total,
            ceiling: self.ceiling,
        }
    }

    /// The loop before its first sample.
    pub fn new(ceiling: u32) -> (a: Self)
        ensures
            a == Admission::opening(ceiling),
    {
        Admission {
            advertised: ceiling,
            admit_total: u64::MAX,
            ssthresh: u64::MAX,
            last_shed: 0,
            ceiling,
        }
    }

    /// Recomputes what one client connection may open, and returns it.
    ///
    /// The loop stays as generous as it can be and retreats only from evidence.
    pub fn sample(&mut self, conns: usize, shed_total: u64, near: bool) -> (advertised: u32)
        requires
            old(self).steerable(conns),
        ensures
            *final(self) == old(self).after_sample(conns, shed_total, near),
            advertised == final(self).advertised,
    {
        let claimed: u64 = if conns == 0 {
            1
        } else {
            conns as u64
        };
        let ceiling: u64 = self.ceiling as u64;
        proof {
            assert(ceiling * claimed <= u32::MAX * u64::MAX) by (nonlinear_arith)
                requires
                    ceiling <= u32::MAX,
                    claimed <= u64::MAX,
            ;
            assert(0 <= ceiling * claimed) by (nonlinear_arith);
        }
        let product: u128 = ceiling as u128 * claimed as u128;
        let ceiling_total: u64 = if product > u64::MAX as u128 {
            u64::MAX
        } else {
            product as u64
        };
        assert(ceiling_total == self.ceiling_total(conns));

        let distressed = shed_total > self.last_shed || near;
        self.last_shed = shed_total;

        let current: u64 = if self.admit_total < MIN_TOTAL as u64 {
            MIN_TOTAL as u64
        } else if self.admit_total > ceiling_total {
            ceiling_total
        } else {
            self.admit_total
        };

        let next_total: u64 = if distressed {
            let half = current / 2;
            let half: u64 = if half < MIN_TOTAL as u64 {
                MIN_TOTAL as u64
            } else {
                half
            };
            self.ssthresh = half;
            half
        } else {
            let wanted = if current < self.ssthresh {
                // Below a level we know was servable: get back to it
                // geometrically.
                current.saturating_add(current)
            } else {
                // Above it, so probe, by a step proportional to where we are.
                let sixteenth = current / 16;
                current.saturating_add(
                    if sixteenth > claimed {
                        sixteenth
                    } else {
                        claimed
                    },
                )
            };
            if wanted > ceiling_total {
                ceiling_total
            } else {
                wanted
            }
        };
        self.admit_total = next_total;
        let share = next_total / claimed;
        let advertised: u32 = if share < MIN_ADMIT as u64 {
            MIN_ADMIT
        } else if share > ceiling {
            self.ceiling
        } else {
            share as u32
        };
        self.advertised = advertised;
        advertised
    }
}

// ---------------------------------------------------------------------------
// Laws
// ---------------------------------------------------------------------------

/// What a connection is told is always between the floor and the ceiling, and
/// the total always within its own bounds.
pub proof fn admission_stays_within_its_bounds(
    a: Admission,
    conns: usize,
    shed_total: u64,
    near: bool,
)
    requires
        a.steerable(conns),
    ensures
        ({
            let b = a.after_sample(conns, shed_total, near);
            &&& MIN_ADMIT <= b.advertised <= a.ceiling
            &&& MIN_TOTAL <= b.admit_total <= a.ceiling_total(conns)
        }),
{
}

/// Distress halves the total at once, down to the floor, and remembers the level
/// it retreated to.
pub proof fn distress_halves_the_total(a: Admission, conns: usize, shed_total: u64, near: bool)
    requires
        a.steerable(conns),
        a.distressed(shed_total, near),
    ensures
        ({
            let b = a.after_sample(conns, shed_total, near);
            &&& b.admit_total <= a.current(conns) / 2 || b.admit_total == MIN_TOTAL
            &&& b.ssthresh == b.admit_total
        }),
{
}

/// The loop steers the total, not the share: with the same total, more claimants
/// never means more each.
pub proof fn more_claimants_never_get_more_each(
    a: Admission,
    few: usize,
    many: usize,
    shed_total: u64,
    near: bool,
)
    requires
        a.steerable(few),
        a.steerable(many),
        few <= many,
        a.distressed(shed_total, near),
        a.admit_total <= a.ceiling_total(few),
        a.ceiling_total(few) <= a.ceiling_total(many),
    ensures
        a.after_sample(many, shed_total, near).advertised <= a.after_sample(
            few,
            shed_total,
            near,
        ).advertised,
        a.after_sample(many, shed_total, near).admit_total == a.after_sample(
            few,
            shed_total,
            near,
        ).admit_total,
{
    let t = a.retreated(few) as int;
    let f = claimants(few) as int;
    let m = claimants(many) as int;
    assert(t / m <= t / f) by (nonlinear_arith)
        requires
            t >= 0,
            0 < f <= m,
    ;
}

/// The loop after `n` quiet samples.
pub open spec fn after_quiet(a: Admission, conns: usize, n: nat) -> Admission
    decreases n,
{
    if n == 0 {
        a
    } else {
        let b = after_quiet(a, conns, (n - 1) as nat);
        b.after_sample(conns, b.last_shed, false)
    }
}

/// Recovery is measured in samples: without distress the total climbs by at
/// least a sixteenth of where it began with every sample, until the ceiling, so
/// twenty quiet samples at least double it.
pub proof fn quiet_samples_recover(a: Admission, conns: usize, n: nat)
    requires
        a.steerable(conns),
    ensures
        ({
            let b = after_quiet(a, conns, n);
            let start = a.current(conns);
            &&& b.current(conns) == a.ceiling_total(conns) || b.current(conns) >= start + n * (start
                / 16)
            &&& n >= 20 ==> b.current(conns) == a.ceiling_total(conns) || b.current(conns) >= 2
                * start
        }),
    decreases n,
{
    let start = a.current(conns);
    let step = start / 16;
    if n > 0 {
        let m = (n - 1) as nat;
        quiet_samples_recover(a, conns, m);
        lemma_quiet_keeps(a, conns, m);
        let b = after_quiet(a, conns, m);
        let c = after_quiet(a, conns, n);
        assert(n * step == m * step + step) by (nonlinear_arith)
            requires
                n == m + 1,
        ;
        assert(0 <= m * step) by (nonlinear_arith)
            requires
                0 <= m,
                0 <= step,
        ;
        assert(c.current(conns) == b.advanced(conns));
    } else {
        assert(0 * step == 0) by (nonlinear_arith);
    }
    if n >= 20 {
        assert(n * step >= 20 * step) by (nonlinear_arith)
            requires
                n >= 20,
                step >= 0,
        ;
    }
}

proof fn lemma_quiet_keeps(a: Admission, conns: usize, n: nat)
    requires
        a.steerable(conns),
    ensures
        after_quiet(a, conns, n).ceiling == a.ceiling,
        after_quiet(a, conns, n).steerable(conns),
        after_quiet(a, conns, n).ceiling_total(conns) == a.ceiling_total(conns),
    decreases n,
{
    if n > 0 {
        lemma_quiet_keeps(a, conns, (n - 1) as nat);
    }
}

/// A sample halves the total in distress and otherwise doubles it, until it has
/// once been halved to where it is; from there on it creeps by a sixteenth, or by
/// one a claimant. It stays within the floor and the ceiling.
pub proof fn a_sample_halves_or_grows_the_total(
    a: Admission,
    conns: usize,
    shed_total: u64,
    near: bool,
)
    requires
        a.steerable(conns),
        MIN_TOTAL <= a.admit_total <= a.ceiling_total(conns),
        conns > 0,
    ensures
        ({
            let b = a.after_sample(conns, shed_total, near);
            let wanted = if shed_total > a.last_shed || near {
                a.admit_total as int / 2
            } else if a.admit_total < a.ssthresh {
                2 * a.admit_total
            } else if a.admit_total as int / 16 > conns {
                a.admit_total + a.admit_total as int / 16
            } else {
                a.admit_total + conns
            };
            &&& b.admit_total == (if wanted < MIN_TOTAL {
                MIN_TOTAL as int
            } else if wanted > a.ceiling_total(conns) {
                a.ceiling_total(conns) as int
            } else {
                wanted
            })
            &&& b.last_shed == shed_total
            &&& b.ssthresh == (if shed_total > a.last_shed || near {
                b.admit_total
            } else {
                a.ssthresh
            })
        }),
{
}

/// Every claimant is told an equal share of the total, rounded down, within the
/// floor and the ceiling.
pub proof fn the_total_is_shared_equally(
    a: Admission,
    conns: usize,
    shed_total: u64,
    near: bool,
)
    requires
        a.steerable(conns),
        conns > 0,
    ensures
        ({
            let b = a.after_sample(conns, shed_total, near);
            &&& b.advertised > MIN_ADMIT ==> b.advertised * conns <= b.admit_total
            &&& b.advertised < a.ceiling ==> (b.advertised + 1) * conns > b.admit_total
        }),
{
    let b = a.after_sample(conns, shed_total, near);
    let total = b.admit_total as int;
    let share = total / conns as int;
    assert(share * conns <= total < (share + 1) * conns) by (nonlinear_arith)
        requires
            share == total / conns as int,
            conns > 0,
            total >= 0,
    ;
    if b.advertised > MIN_ADMIT {
        assert(b.advertised <= share);
        assert(b.advertised * conns <= share * conns) by (nonlinear_arith)
            requires
                b.advertised <= share,
        ;
    }
    if b.advertised < a.ceiling {
        assert(b.advertised >= share);
        assert((b.advertised + 1) * conns >= (share + 1) * conns) by (nonlinear_arith)
            requires
                b.advertised >= share,
        ;
    }
}

} // verus!
