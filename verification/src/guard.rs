//! Per-connection abuse accounting.
//!
//! The HTTP/2 attacks that matter are not malformed frames but legal frames sent
//! at a rate that costs the server far more than the client. This module is a
//! pile of counters with thresholds: no protocol state, no I/O, no timer. Every
//! method that needs a clock takes `now`, a count of nanoseconds.
//!
//! # Token buckets
//!
//! A fixed window lets a client send the whole budget at the end of one window
//! and again at the start of the next. A bucket refills continuously, and its
//! threshold is a sentence: this many at once, that many per second sustained.
//! Tokens are counted in billionths, so a whole number of them per second is a
//! whole number of billionths per nanosecond and nothing is ever rounded.

use vstd::prelude::*;

verus! {

/// A threshold that nothing reaches.
pub const UNLIMITED: u64 = u64::MAX;

/// One token, in billionths; also one second, in nanoseconds.
pub const WHOLE: u64 = 1_000_000_000;

/// What tripped, for the log line, the metric label, and the GOAWAY debug data.
#[derive(Clone, Copy, PartialEq, Eq, Debug, Structural)]
pub enum Signal {
    /// RST_STREAM received, at any point in a stream's life.
    Resets,
    /// Streams reset before we had sent any response: the Rapid Reset
    /// signature, and a far more specific signal than resets alone.
    UnansweredResets,
    /// PING and SETTINGS: the frame types that oblige us to send an ACK.
    ControlFrames,
    /// Zero-length DATA that does not end its stream.
    EmptyFrames,
    /// CONTINUATION frames within a single header block.
    Continuations,
}

impl Signal {
    /// The name of a signal.
    pub open spec fn text(self) -> Seq<char> {
        match self {
            Signal::Resets => "resets"@,
            Signal::UnansweredResets => "unanswered_resets"@,
            Signal::ControlFrames => "control_frames"@,
            Signal::EmptyFrames => "empty_frames"@,
            Signal::Continuations => "continuations"@,
        }
    }

    /// A stable, lowercase name for metric labels and logs.
    pub fn as_str(self) -> (s: &'static str)
        ensures
            s@ == self.text(),
    {
        match self {
            Signal::Resets => "resets",
            Signal::UnansweredResets => "unanswered_resets",
            Signal::ControlFrames => "control_frames",
            Signal::EmptyFrames => "empty_frames",
            Signal::Continuations => "continuations",
        }
    }
}

/// The outcome of one accounting call.
#[derive(Clone, Copy, PartialEq, Eq, Debug, Structural)]
#[must_use]
pub enum Verdict {
    Pass,
    Trip(Signal),
}

impl Verdict {
    /// The signal that tripped, if one did.
    pub fn tripped(self) -> (r: Option<Signal>)
        ensures
            r == (match self {
                Verdict::Pass => None,
                Verdict::Trip(signal) => Some(signal),
            }),
    {
        match self {
            Verdict::Pass => None,
            Verdict::Trip(signal) => Some(signal),
        }
    }
}

/// Thresholds: whole events for bursts, whole events per second for rates.
#[derive(Clone, Copy, PartialEq, Eq, Debug, Structural)]
pub struct Limits {
    /// Resets absorbed instantly. A browser navigating away cancels a burst of
    /// tens at once.
    pub reset_burst: u64,
    /// Resets per second, sustained.
    pub reset_rate: u64,
    /// Unanswered resets absorbed instantly. Tighter than `reset_burst`: a
    /// client that has not been answered has had less reason to change its
    /// mind.
    pub unanswered_burst: u64,
    /// Unanswered resets per second.
    pub unanswered_rate: u64,
    /// Control frames absorbed instantly.
    pub control_burst: u64,
    /// PING and SETTINGS per second.
    pub control_rate: u64,
    /// Consecutive zero-length DATA frames without END_STREAM. There is no
    /// legitimate use for even one.
    pub max_consecutive_empty: u32,
    /// CONTINUATION frames within one header block. The limit on octets bounds
    /// the buffer, but not the frame count.
    pub max_continuations: u32,
    /// Count and record, never trip.
    pub observe_only: bool,
}

impl Default for Limits {
    fn default() -> (l: Self)
        ensures
            l == (Limits {
                reset_burst: 100,
                reset_rate: 20,
                unanswered_burst: 50,
                unanswered_rate: 15,
                control_burst: 200,
                control_rate: 50,
                max_consecutive_empty: 32,
                max_continuations: 64,
                observe_only: false,
            }),
    {
        Limits {
            reset_burst: 100,
            reset_rate: 20,
            unanswered_burst: 50,
            unanswered_rate: 15,
            control_burst: 200,
            control_rate: 50,
            max_consecutive_empty: 32,
            max_continuations: 64,
            observe_only: false,
        }
    }
}

impl Limits {
    /// Never trip.
    pub fn permissive() -> (l: Self)
        ensures
            l == (Limits {
                reset_burst: UNLIMITED,
                reset_rate: UNLIMITED,
                unanswered_burst: UNLIMITED,
                unanswered_rate: UNLIMITED,
                control_burst: UNLIMITED,
                control_rate: UNLIMITED,
                max_consecutive_empty: u32::MAX,
                max_continuations: u32::MAX,
                observe_only: false,
            }),
    {
        Limits {
            reset_burst: UNLIMITED,
            reset_rate: UNLIMITED,
            unanswered_burst: UNLIMITED,
            unanswered_rate: UNLIMITED,
            control_burst: UNLIMITED,
            control_rate: UNLIMITED,
            max_consecutive_empty: u32::MAX,
            max_continuations: u32::MAX,
            observe_only: false,
        }
    }
}

/// How long after `since` `now` is; none where the clock went backwards.
pub open spec fn passed(now: u64, since: u64) -> nat {
    if now < since {
        0
    } else {
        (now - since) as nat
    }
}

// ---------------------------------------------------------------------------
// The bucket
// ---------------------------------------------------------------------------

/// A token bucket: `burst` tokens, refilled at `rate` per second.
#[derive(Clone, Copy, PartialEq, Eq, Debug, Structural)]
pub struct Bucket {
    /// What is left, in billionths of a token.
    pub tokens: u128,
    pub rate: u64,
    pub burst: u64,
    pub last: u64,
}

impl Bucket {
    /// The most the bucket holds, in billionths.
    pub open spec fn full(self) -> nat {
        (self.burst * WHOLE) as nat
    }

    /// What is in the bucket at `now`: what was left, and what flowed in since,
    /// up to the brim.
    pub open spec fn level(self, now: u64) -> nat {
        if self.rate == UNLIMITED {
            self.full()
        } else {
            let sum = self.tokens + passed(now, self.last) * self.rate;
            if sum > self.full() {
                self.full()
            } else {
                sum as nat
            }
        }
    }

    /// The bucket after an event at `now`, and whether it had a token for it.
    pub open spec fn spent(self, now: u64) -> (Bucket, bool) {
        let level = self.level(now);
        if self.burst == UNLIMITED {
            (Bucket { tokens: level as u128, last: now, ..self }, true)
        } else if level < WHOLE {
            (Bucket { tokens: level as u128, last: now, ..self }, false)
        } else {
            (Bucket { tokens: (level - WHOLE) as u128, last: now, ..self }, true)
        }
    }

    /// No bucket holds more than its burst.
    pub open spec fn wf(self) -> bool {
        self.tokens <= self.full()
    }

    /// A full bucket.
    pub fn new(burst: u64, rate: u64, now: u64) -> (b: Self)
        ensures
            b.wf(),
            b == (Bucket { tokens: (burst * WHOLE) as u128, rate, burst, last: now }),
    {
        assert(burst * WHOLE <= u64::MAX * 1_000_000_000) by (nonlinear_arith)
            requires
                burst <= u64::MAX,
                WHOLE == 1_000_000_000,
        ;
        Bucket { tokens: burst as u128 * WHOLE as u128, rate, burst, last: now }
    }

    /// Spends one token. `false` once the budget is exhausted.
    pub fn take(&mut self, now: u64) -> (ok: bool)
        requires
            old(self).wf(),
        ensures
            final(self).wf(),
            *final(self) == old(self).spent(now).0,
            ok == old(self).spent(now).1,
    {
        proof {
            assert(self.burst * WHOLE <= u64::MAX * 1_000_000_000) by (nonlinear_arith)
                requires
                    self.burst <= u64::MAX,
                    WHOLE == 1_000_000_000,
            ;
        }
        let elapsed: u64 = if now < self.last {
            0
        } else {
            now - self.last
        };
        let full: u128 = self.burst as u128 * WHOLE as u128;
        let level: u128 = if self.rate == UNLIMITED {
            full
        } else {
            proof {
                assert(elapsed * self.rate <= u64::MAX * u64::MAX) by (nonlinear_arith)
                    requires
                        elapsed <= u64::MAX,
                        self.rate <= u64::MAX,
                ;
                assert(u64::MAX * u64::MAX <= u128::MAX) by (nonlinear_arith);
                assert(0 <= elapsed * self.rate) by (nonlinear_arith);
            }
            let inflow: u128 = elapsed as u128 * self.rate as u128;
            if inflow > full - self.tokens {
                full
            } else {
                self.tokens + inflow
            }
        };
        self.last = now;
        if self.burst == UNLIMITED {
            self.tokens = level;
            return true;
        }
        if level < WHOLE as u128 {
            self.tokens = level;
            return false;
        }
        self.tokens = level - WHOLE as u128;
        true
    }
}

// ---------------------------------------------------------------------------
// The meter
// ---------------------------------------------------------------------------

/// So many events in so many nanoseconds.
#[derive(Clone, Copy, PartialEq, Eq, Debug, Structural)]
pub struct Rate {
    pub events: u32,
    pub nanos: u64,
}

impl Rate {
    /// Whether this rate is the higher one.
    pub open spec fn above(self, other: Rate) -> bool {
        self.events * other.nanos > other.events * self.nanos
    }

    fn exceeds(&self, other: &Rate) -> (b: bool)
        ensures
            b == self.above(*other),
    {
        proof {
            assert(0 <= self.events * other.nanos <= u32::MAX * u64::MAX) by (nonlinear_arith)
                requires
                    self.events <= u32::MAX,
                    other.nanos <= u64::MAX,
            ;
            assert(0 <= other.events * self.nanos <= u32::MAX * u64::MAX) by (nonlinear_arith)
                requires
                    other.events <= u32::MAX,
                    self.nanos <= u64::MAX,
            ;
        }
        self.events as u128 * other.nanos as u128 > other.events as u128 * self.nanos as u128
    }
}

/// The higher of two rates; the first where they are the same.
pub open spec fn higher(a: Rate, b: Rate) -> Rate {
    if b.above(a) {
        b
    } else {
        a
    }
}

/// The peak rate a signal actually reached.
///
/// Separate from the bucket on purpose. The bucket answers "should this trip?";
/// this answers "how close did legitimate traffic come?".
#[derive(Clone, Copy, PartialEq, Eq, Debug, Structural)]
pub struct RateMeter {
    pub window_start: u64,
    pub count: u32,
    pub peak: Rate,
}

impl RateMeter {
    /// The meter after an event at `now`: a window of a second or more is
    /// scored and a new one begins.
    pub open spec fn recorded(self, now: u64) -> RateMeter {
        let elapsed = passed(now, self.window_start);
        let m = if elapsed >= WHOLE {
            RateMeter {
                window_start: now,
                count: 0,
                peak: higher(self.peak, Rate { events: self.count, nanos: elapsed as u64 }),
            }
        } else {
            self
        };
        RateMeter {
            count: if m.count < u32::MAX {
                (m.count + 1) as u32
            } else {
                u32::MAX
            },
            ..m
        }
    }

    /// The peak sustained rate at `now`, including the window in progress,
    /// which is scored over a whole second even when less has elapsed: two
    /// events moments apart are not a rate of thousands per second.
    pub open spec fn reached(self, now: u64) -> Rate {
        let elapsed = passed(now, self.window_start);
        higher(
            self.peak,
            Rate {
                events: self.count,
                nanos: if elapsed < WHOLE {
                    WHOLE
                } else {
                    elapsed as u64
                },
            },
        )
    }

    pub fn new(now: u64) -> (m: Self)
        ensures
            m == (RateMeter {
                window_start: now,
                count: 0,
                peak: (Rate { events: 0, nanos: WHOLE }),
            }),
    {
        RateMeter { window_start: now, count: 0, peak: Rate { events: 0, nanos: WHOLE } }
    }

    fn record(&mut self, now: u64)
        ensures
            *final(self) == old(self).recorded(now),
    {
        let elapsed: u64 = if now < self.window_start {
            0
        } else {
            now - self.window_start
        };
        if elapsed >= WHOLE {
            let rate = Rate { events: self.count, nanos: elapsed };
            if rate.exceeds(&self.peak) {
                self.peak = rate;
            }
            self.window_start = now;
            self.count = 0;
        }
        self.count = self.count.saturating_add(1);
    }

    fn peak(&self, now: u64) -> (r: Rate)
        ensures
            r == self.reached(now),
    {
        let elapsed: u64 = if now < self.window_start {
            0
        } else {
            now - self.window_start
        };
        let nanos: u64 = if elapsed < WHOLE {
            WHOLE
        } else {
            elapsed
        };
        let partial = Rate { events: self.count, nanos };
        if partial.exceeds(&self.peak) {
            partial
        } else {
            self.peak
        }
    }
}

/// One rate-limited signal: the enforcement half and the measurement half.
#[derive(Clone, Copy, PartialEq, Eq, Debug, Structural)]
pub struct Meter {
    pub bucket: Bucket,
    pub rate: RateMeter,
}

impl Meter {
    /// A meter that nothing has happened on.
    pub open spec fn fresh(burst: u64, rate: u64, now: u64) -> Meter {
        Meter {
            bucket: Bucket { tokens: (burst * WHOLE) as u128, rate, burst, last: now },
            rate: RateMeter {
                window_start: now,
                count: 0,
                peak: Rate { events: 0, nanos: WHOLE },
            },
        }
    }

    /// The meter after an event, and whether it stayed inside the budget.
    pub open spec fn recorded(self, now: u64) -> (Meter, bool) {
        (
            Meter { bucket: self.bucket.spent(now).0, rate: self.rate.recorded(now) },
            self.bucket.spent(now).1,
        )
    }

    fn new(burst: u64, rate: u64, now: u64) -> (m: Self)
        ensures
            m.bucket.wf(),
            m == Meter::fresh(burst, rate, now),
    {
        Meter { bucket: Bucket::new(burst, rate, now), rate: RateMeter::new(now) }
    }

    /// Records one event, returning whether it stayed inside the budget.
    fn record(&mut self, now: u64) -> (ok: bool)
        requires
            old(self).bucket.wf(),
        ensures
            final(self).bucket.wf(),
            *final(self) == old(self).recorded(now).0,
            ok == old(self).recorded(now).1,
    {
        self.rate.record(now);
        self.bucket.take(now)
    }
}

/// Peak observed rates, for calibration and the gauges.
#[derive(Clone, Copy, PartialEq, Eq, Debug, Structural)]
pub struct Peaks {
    pub resets_per_sec: Rate,
    pub unanswered_per_sec: Rate,
    pub control_per_sec: Rate,
    pub max_consecutive_empty: u32,
    pub max_continuations: u32,
}

// ---------------------------------------------------------------------------
// The guard
// ---------------------------------------------------------------------------

/// Per-connection abuse accounting. One of these per client connection.
#[derive(Clone, Copy, PartialEq, Eq, Debug, Structural)]
pub struct Guard {
    pub limits: Limits,
    pub resets: Meter,
    pub unanswered: Meter,
    pub control: Meter,
    pub consecutive_empty: u32,
    pub continuations: u32,
    pub peak_empty: u32,
    pub peak_continuations: u32,
    /// What tripped, kept so the connection can name it after the verdict has
    /// become an error.
    pub last_trip: Option<Signal>,
}

/// A count with one more, held at the largest.
pub open spec fn one_more(n: u32) -> u32 {
    if n < u32::MAX {
        (n + 1) as u32
    } else {
        u32::MAX
    }
}

/// The larger of two counts.
pub open spec fn larger(a: u32, b: u32) -> u32 {
    if b > a {
        b
    } else {
        a
    }
}

impl Guard {
    /// The buckets hold no more than their bursts.
    pub open spec fn wf(self) -> bool {
        self.resets.bucket.wf() && self.unanswered.bucket.wf() && self.control.bucket.wf()
    }

    /// A trip, unless we are only observing.
    pub open spec fn trips(self, signal: Signal) -> (Guard, Verdict) {
        if self.limits.observe_only {
            (self, Verdict::Pass)
        } else {
            (Guard { last_trip: Some(signal), ..self }, Verdict::Trip(signal))
        }
    }

    /// A RST_STREAM arrived: counted, and counted again where its stream had
    /// not been answered.
    pub open spec fn after_reset(self, answered: bool, now: u64) -> (Guard, Verdict) {
        let (resets, within) = self.resets.recorded(now);
        let g = Guard { resets, ..self };
        if !within {
            g.trips(Signal::Resets)
        } else if answered {
            (g, Verdict::Pass)
        } else {
            let (unanswered, within) = g.unanswered.recorded(now);
            let g = Guard { unanswered, ..g };
            if within {
                (g, Verdict::Pass)
            } else {
                g.trips(Signal::UnansweredResets)
            }
        }
    }

    /// A frame arrived that obliges us to answer.
    pub open spec fn after_control(self, now: u64) -> (Guard, Verdict) {
        let (control, within) = self.control.recorded(now);
        let g = Guard { control, ..self };
        if within {
            (g, Verdict::Pass)
        } else {
            g.trips(Signal::ControlFrames)
        }
    }

    /// A DATA frame arrived: one that is empty and ends nothing lengthens the
    /// run, any other ends it.
    pub open spec fn after_data(self, len: nat, end_stream: bool) -> (Guard, Verdict) {
        if len > 0 || end_stream {
            (Guard { consecutive_empty: 0, ..self }, Verdict::Pass)
        } else {
            let run = one_more(self.consecutive_empty);
            let g = Guard {
                consecutive_empty: run,
                peak_empty: larger(self.peak_empty, run),
                ..self
            };
            if run > self.limits.max_consecutive_empty {
                g.trips(Signal::EmptyFrames)
            } else {
                (g, Verdict::Pass)
            }
        }
    }

    /// A CONTINUATION arrived for the header block currently open.
    pub open spec fn after_continuation(self) -> (Guard, Verdict) {
        let run = one_more(self.continuations);
        let g = Guard {
            continuations: run,
            peak_continuations: larger(self.peak_continuations, run),
            ..self
        };
        if run > self.limits.max_continuations {
            g.trips(Signal::Continuations)
        } else {
            (g, Verdict::Pass)
        }
    }

    pub fn new(limits: Limits, now: u64) -> (g: Self)
        ensures
            g.wf(),
            g == (Guard {
                limits,
                resets: Meter::fresh(limits.reset_burst, limits.reset_rate, now),
                unanswered: Meter::fresh(limits.unanswered_burst, limits.unanswered_rate, now),
                control: Meter::fresh(limits.control_burst, limits.control_rate, now),
                consecutive_empty: 0,
                continuations: 0,
                peak_empty: 0,
                peak_continuations: 0,
                last_trip: None,
            }),
    {
        Guard {
            resets: Meter::new(limits.reset_burst, limits.reset_rate, now),
            unanswered: Meter::new(limits.unanswered_burst, limits.unanswered_rate, now),
            control: Meter::new(limits.control_burst, limits.control_rate, now),
            limits,
            consecutive_empty: 0,
            continuations: 0,
            peak_empty: 0,
            peak_continuations: 0,
            last_trip: None,
        }
    }

    /// The signal that tripped, if one did.
    pub fn last_trip(&self) -> (r: Option<Signal>)
        ensures
            r == self.last_trip,
    {
        self.last_trip
    }

    fn verdict(&mut self, signal: Signal) -> (v: Verdict)
        ensures
            *final(self) == old(self).trips(signal).0,
            v == old(self).trips(signal).1,
    {
        if self.limits.observe_only {
            Verdict::Pass
        } else {
            self.last_trip = Some(signal);
            Verdict::Trip(signal)
        }
    }

    /// A RST_STREAM arrived. `answered` is whether we had already sent this
    /// stream's response head.
    pub fn on_reset(&mut self, answered: bool, now: u64) -> (v: Verdict)
        requires
            old(self).wf(),
        ensures
            final(self).wf(),
            *final(self) == old(self).after_reset(answered, now).0,
            v == old(self).after_reset(answered, now).1,
    {
        if !self.resets.record(now) {
            return self.verdict(Signal::Resets);
        }
        if !answered && !self.unanswered.record(now) {
            return self.verdict(Signal::UnansweredResets);
        }
        Verdict::Pass
    }

    /// A PING, SETTINGS, or connection-level WINDOW_UPDATE arrived. None are
    /// flow-controlled, and each costs us a reply or a state update.
    pub fn on_control_frame(&mut self, now: u64) -> (v: Verdict)
        requires
            old(self).wf(),
        ensures
            final(self).wf(),
            *final(self) == old(self).after_control(now).0,
            v == old(self).after_control(now).1,
    {
        if !self.control.record(now) {
            return self.verdict(Signal::ControlFrames);
        }
        Verdict::Pass
    }

    /// A DATA frame arrived. Empty frames that do not end their stream are
    /// counted consecutively; anything else resets the run.
    pub fn on_data(&mut self, len: usize, end_stream: bool) -> (v: Verdict)
        ensures
            old(self).wf() ==> final(self).wf(),
            *final(self) == old(self).after_data(len as nat, end_stream).0,
            v == old(self).after_data(len as nat, end_stream).1,
    {
        if len > 0 || end_stream {
            self.consecutive_empty = 0;
            return Verdict::Pass;
        }
        self.consecutive_empty = self.consecutive_empty.saturating_add(1);
        if self.consecutive_empty > self.peak_empty {
            self.peak_empty = self.consecutive_empty;
        }
        if self.consecutive_empty > self.limits.max_consecutive_empty {
            return self.verdict(Signal::EmptyFrames);
        }
        Verdict::Pass
    }

    /// A CONTINUATION arrived for the header block currently open.
    pub fn on_continuation(&mut self) -> (v: Verdict)
        ensures
            old(self).wf() ==> final(self).wf(),
            *final(self) == old(self).after_continuation().0,
            v == old(self).after_continuation().1,
    {
        self.continuations = self.continuations.saturating_add(1);
        if self.continuations > self.peak_continuations {
            self.peak_continuations = self.continuations;
        }
        if self.continuations > self.limits.max_continuations {
            return self.verdict(Signal::Continuations);
        }
        Verdict::Pass
    }

    /// A header block finished, so the CONTINUATION count starts again.
    pub fn on_header_block_end(&mut self)
        ensures
            old(self).wf() ==> final(self).wf(),
            *final(self) == (Guard { continuations: 0, ..*old(self) }),
    {
        self.continuations = 0;
    }

    /// What this connection actually reached.
    pub fn peaks(&self, now: u64) -> (p: Peaks)
        ensures
            p == (Peaks {
                resets_per_sec: self.resets.rate.reached(now),
                unanswered_per_sec: self.unanswered.rate.reached(now),
                control_per_sec: self.control.rate.reached(now),
                max_consecutive_empty: self.peak_empty,
                max_continuations: self.peak_continuations,
            }),
    {
        Peaks {
            resets_per_sec: self.resets.rate.peak(now),
            unanswered_per_sec: self.unanswered.rate.peak(now),
            control_per_sec: self.control.rate.peak(now),
            max_consecutive_empty: self.peak_empty,
            max_continuations: self.peak_continuations,
        }
    }
}

// ---------------------------------------------------------------------------
// Laws
// ---------------------------------------------------------------------------

/// A bucket after events at the given instants, and how many it had a token
/// for.
pub open spec fn spent_all(b: Bucket, at: Seq<u64>) -> (Bucket, nat)
    decreases at.len(),
{
    if at.len() == 0 {
        (b, 0)
    } else {
        let (c, n) = spent_all(b, at.drop_last());
        let (d, ok) = c.spent(at.last());
        (
            d,
            if ok {
                n + 1
            } else {
                n
            },
        )
    }
}

/// The instants are in order, none before `start`.
pub open spec fn in_order(start: u64, at: Seq<u64>) -> bool {
    forall|i: int|
        0 <= i < at.len() ==> (if i == 0 {
            start
        } else {
            at[i - 1]
        }) <= #[trigger] at[i]
}

/// The instants are at least a refill apart, the first from `start`.
pub open spec fn spaced(start: u64, rate: u64, at: Seq<u64>) -> bool {
    forall|i: int|
        0 <= i < at.len() ==> (#[trigger] at[i] - (if i == 0 {
            start
        } else {
            at[i - 1]
        })) * rate >= WHOLE
}

/// Traffic at or below the sustained rate never trips, however long it goes on.
pub proof fn a_sustained_rate_within_the_limit_never_trips(b: Bucket, at: Seq<u64>)
    requires
        b.wf(),
        b.burst >= 1,
        spaced(b.last, b.rate, at),
        in_order(b.last, at),
    ensures
        spent_all(b, at).1 == at.len(),
    decreases at.len(),
{
    lemma_spent_all_wf(b, at);
    if at.len() > 0 {
        let init = at.drop_last();
        assert(spaced(b.last, b.rate, init)) by {
            assert forall|i: int| 0 <= i < init.len() implies (#[trigger] init[i] - (if i == 0 {
                b.last
            } else {
                init[i - 1]
            })) * b.rate >= WHOLE by {
                assert(at[i] == init[i]);
            }
        }
        assert(in_order(b.last, init)) by {
            assert forall|i: int| 0 <= i < init.len() implies (if i == 0 {
                b.last
            } else {
                init[i - 1]
            }) <= #[trigger] init[i] by {
                assert(at[i] == init[i]);
            }
        }
        a_sustained_rate_within_the_limit_never_trips(b, init);
        lemma_spent_all_wf(b, init);
        let c = spent_all(b, init).0;
        let now = at.last();
        assert(at[at.len() - 1] == now);
        assert(c.full() >= WHOLE) by (nonlinear_arith)
            requires
                c.full() == c.burst * WHOLE,
                c.burst >= 1,
                WHOLE == 1_000_000_000,
        ;
        assert(passed(now, c.last) * c.rate >= WHOLE);
    }
}

proof fn lemma_spent_all_wf(b: Bucket, at: Seq<u64>)
    requires
        b.wf(),
    ensures
        ({
            let c = spent_all(b, at).0;
            &&& c.wf()
            &&& c.rate == b.rate && c.burst == b.burst
            &&& c.last == (if at.len() == 0 {
                b.last
            } else {
                at.last()
            })
        }),
    decreases at.len(),
{
    if at.len() > 0 {
        lemma_spent_all_wf(b, at.drop_last());
        let c = spent_all(b, at.drop_last()).0;
        let now = at.last();
        assert(c.level(now) <= c.full());
        assert(c.full() <= u128::MAX) by (nonlinear_arith)
            requires
                c.full() == c.burst * WHOLE,
                c.burst <= u64::MAX,
                WHOLE == 1_000_000_000,
        ;
        assert(0 <= passed(now, c.last) * c.rate) by (nonlinear_arith);
    }
}

/// This many at once, that many per second sustained: over any stretch of time
/// a bucket grants no more than what it held and what flowed in.
pub proof fn a_bucket_grants_only_what_flowed_in(b: Bucket, at: Seq<u64>)
    requires
        b.wf(),
        b.rate != UNLIMITED,
        b.burst != UNLIMITED,
        at.len() > 0,
        in_order(b.last, at),
    ensures
        spent_all(b, at).1 * WHOLE <= b.tokens + (at.last() - b.last) * b.rate,
{
    lemma_grants(b, at);
}

proof fn lemma_grants(b: Bucket, at: Seq<u64>)
    requires
        b.wf(),
        b.rate != UNLIMITED,
        b.burst != UNLIMITED,
        in_order(b.last, at),
    ensures
        ({
            let (c, n) = spent_all(b, at);
            &&& c.last >= b.last
            &&& n * WHOLE + c.tokens <= b.tokens + (c.last - b.last) * b.rate
        }),
    decreases at.len(),
{
    lemma_spent_all_wf(b, at);
    if at.len() > 0 {
        let init = at.drop_last();
        assert(in_order(b.last, init)) by {
            assert forall|i: int| 0 <= i < init.len() implies (if i == 0 {
                b.last
            } else {
                init[i - 1]
            }) <= #[trigger] init[i] by {
                assert(at[i] == init[i]);
            }
        }
        lemma_grants(b, init);
        lemma_spent_all_wf(b, init);
        let (c, n) = spent_all(b, init);
        let now = at.last();
        assert(at[at.len() - 1] == now);
        assert(c.last <= now);
        assert((now - c.last) * b.rate + (c.last - b.last) * b.rate == (now - b.last) * b.rate)
            by (nonlinear_arith);
        assert((n + 1) * WHOLE == n * WHOLE + WHOLE) by (nonlinear_arith);
        assert(c.full() <= u128::MAX) by (nonlinear_arith)
            requires
                c.full() == c.burst * WHOLE,
                c.burst <= u64::MAX,
                WHOLE == 1_000_000_000,
        ;
        assert(0 <= passed(now, c.last) * c.rate) by (nonlinear_arith);
    } else {
        assert((b.last - b.last) * b.rate == 0) by (nonlinear_arith);
    }
}

/// Silence banks no more than one burst: an idle hour does not buy an hour's
/// worth of attack.
pub proof fn a_bucket_never_refills_past_its_burst(b: Bucket, now: u64)
    requires
        b.wf(),
    ensures
        b.level(now) <= b.full(),
        b.spent(now).0.wf(),
{
    assert(b.full() <= u128::MAX) by (nonlinear_arith)
        requires
            b.full() == b.burst * WHOLE,
            b.burst <= u64::MAX,
            WHOLE == 1_000_000_000,
    ;
    assert(0 <= passed(now, b.last) * b.rate) by (nonlinear_arith);
}

/// A clock that goes backwards refills nothing and breaks nothing.
pub proof fn a_clock_that_goes_backwards_is_survivable(b: Bucket, now: u64)
    requires
        b.wf(),
        b.rate != UNLIMITED,
        now <= b.last,
    ensures
        b.level(now) == b.tokens,
{
    assert(0 * b.rate == 0) by (nonlinear_arith);
}

/// A permissive guard never trips on anything.
pub proof fn a_permissive_guard_never_trips(g: Guard, answered: bool, len: nat, end: bool, now: u64)
    requires
        g.resets.bucket.burst == UNLIMITED,
        g.unanswered.bucket.burst == UNLIMITED,
        g.control.bucket.burst == UNLIMITED,
        g.limits.max_consecutive_empty == u32::MAX,
        g.limits.max_continuations == u32::MAX,
    ensures
        g.after_reset(answered, now).1 is Pass,
        g.after_control(now).1 is Pass,
        g.after_data(len, end).1 is Pass,
        g.after_continuation().1 is Pass,
{
}

/// A guard that only observes never trips either, and still measures.
pub proof fn an_observing_guard_measures_without_tripping(
    g: Guard,
    answered: bool,
    len: nat,
    end: bool,
    now: u64,
)
    requires
        g.limits.observe_only,
    ensures
        g.after_reset(answered, now).1 is Pass,
        g.after_control(now).1 is Pass,
        g.after_data(len, end).1 is Pass,
        g.after_continuation().1 is Pass,
        g.after_reset(answered, now).0.resets.rate == g.resets.rate.recorded(now),
        g.after_control(now).0.control.rate == g.control.rate.recorded(now),
        g.after_data(0, false).0.peak_empty >= one_more(g.consecutive_empty),
        g.after_continuation().0.peak_continuations >= one_more(g.continuations),
{
}

/// Empty frames must be consecutive to count: a frame that carries or ends
/// something clears the run.
pub proof fn a_real_frame_clears_the_run(g: Guard, len: nat, end: bool)
    requires
        len > 0 || end,
    ensures
        g.after_data(len, end).0.consecutive_empty == 0,
        g.after_data(len, end).1 is Pass,
{
}

/// A guard after `n` empty frames in a row, and what it said to the last.
pub open spec fn after_empties(g: Guard, n: nat) -> (Guard, Verdict)
    decreases n,
{
    if n == 0 {
        (g, Verdict::Pass)
    } else {
        after_empties(g, (n - 1) as nat).0.after_data(0, false)
    }
}

/// Empty frames trip the guard once there are more of them in a row than allowed,
/// and never before.
pub proof fn one_empty_frame_too_many_trips(g: Guard, n: nat)
    requires
        g.consecutive_empty == 0,
        !g.limits.observe_only,
        0 < n < u32::MAX,
    ensures
        after_empties(g, n).1 == (if n > g.limits.max_consecutive_empty {
            Verdict::Trip(Signal::EmptyFrames)
        } else {
            Verdict::Pass
        }),
        after_empties(g, n).0.consecutive_empty == n,
        after_empties(g, n).0.limits == g.limits,
    decreases n,
{
    if n > 1 {
        one_empty_frame_too_many_trips(g, (n - 1) as nat);
    } else {
        assert(after_empties(g, 0).0 == g);
    }
}

/// A guard after `n` continuations of one header block, and what it said to the
/// last.
pub open spec fn after_continuations(g: Guard, n: nat) -> (Guard, Verdict)
    decreases n,
{
    if n == 0 {
        (g, Verdict::Pass)
    } else {
        after_continuations(g, (n - 1) as nat).0.after_continuation()
    }
}

/// Continuations trip the guard once a header block has more of them than
/// allowed, and never before.
pub proof fn one_continuation_too_many_trips(g: Guard, n: nat)
    requires
        g.continuations == 0,
        !g.limits.observe_only,
        0 < n < u32::MAX,
    ensures
        after_continuations(g, n).1 == (if n > g.limits.max_continuations {
            Verdict::Trip(Signal::Continuations)
        } else {
            Verdict::Pass
        }),
        after_continuations(g, n).0.continuations == n,
        after_continuations(g, n).0.limits == g.limits,
    decreases n,
{
    if n > 1 {
        one_continuation_too_many_trips(g, (n - 1) as nat);
    } else {
        assert(after_continuations(g, 0).0 == g);
    }
}

/// Each budget is its own: control frames are charged to theirs alone, every reset
/// to that of the resets, and one of a stream that was never answered to a
/// second; a frame trips the guard where a budget it is charged to has less than
/// one token left, and for that budget's reason.
pub proof fn each_budget_is_its_own(g: Guard, answered: bool, now: u64)
    requires
        !g.limits.observe_only,
    ensures
        ({
            let (n, v) = g.after_control(now);
            &&& v == (if g.control.bucket.spent(now).1 {
                Verdict::Pass
            } else {
                Verdict::Trip(Signal::ControlFrames)
            })
            &&& n.control.bucket == g.control.bucket.spent(now).0
            &&& n.resets == g.resets && n.unanswered == g.unanswered
        }),
        ({
            let (n, v) = g.after_reset(answered, now);
            &&& v == (if !g.resets.bucket.spent(now).1 {
                Verdict::Trip(Signal::Resets)
            } else if !answered && !g.unanswered.bucket.spent(now).1 {
                Verdict::Trip(Signal::UnansweredResets)
            } else {
                Verdict::Pass
            })
            &&& n.resets.bucket == g.resets.bucket.spent(now).0
            &&& answered ==> n.unanswered == g.unanswered
            &&& n.control == g.control
        }),
{
}

/// A bucket grants where a whole token is in it, and takes exactly that; time
/// fills it at its rate, up to its burst.
pub proof fn a_token_is_taken_for_each_grant(b: Bucket, now: u64)
    requires
        b.wf(),
        b.rate != UNLIMITED,
        b.burst != UNLIMITED,
        now >= b.last,
    ensures
        ({
            let flowed = b.tokens + (now - b.last) * b.rate;
            let level = if flowed > b.burst * WHOLE {
                b.burst * WHOLE
            } else {
                flowed
            };
            let (c, granted) = b.spent(now);
            &&& granted <==> level >= WHOLE
            &&& c.tokens == level - if granted {
                WHOLE as int
            } else {
                0int
            }
            &&& c.last == now && c.rate == b.rate && c.burst == b.burst
        }),
{
    a_bucket_never_refills_past_its_burst(b, now);
    assert(0 <= (now - b.last) * b.rate) by (nonlinear_arith)
        requires
            now >= b.last,
    ;
    assert(b.full() <= u128::MAX) by (nonlinear_arith)
        requires
            b.full() == b.burst * WHOLE,
            b.burst <= u64::MAX,
            WHOLE == 1_000_000_000,
    ;
}

} // verus!
