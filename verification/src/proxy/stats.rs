//! Live counters, sampled for gauges.
//!
//! Counters wrap at the largest value of their type, as the machine's do.

use vstd::prelude::*;

verus! {

/// How many classes of status there are.
pub const STATUS_CLASSES: usize = 5;

/// Upper bounds, in nanoseconds, for the request-latency histogram. The last
/// holds everything.
///
/// The target is a tail of a few milliseconds, so that region gets seven of the
/// fourteen buckets.
pub const LATENCY_BUCKETS: [u64; 14] = [
    100_000,
    250_000,
    500_000,
    1_000_000,
    2_000_000,
    3_000_000,
    5_000_000,
    10_000_000,
    25_000_000,
    50_000_000,
    100_000_000,
    250_000_000,
    1_000_000_000,
    0xffff_ffff_ffff_ffff,
];

/// Live counters.
#[derive(Debug)]
pub struct ProxyStats {
    /// Upstream connections open right now.
    pub upstream_connections: usize,
    /// Upstream streams open right now.
    pub upstream_streams: usize,
    /// The most upstream streams ever open at once, kept on every open rather than
    /// sampled.
    pub peak_upstream_streams: usize,
    /// Upstream connections attempted.
    pub connects: u64,
    /// Upstream connections that could not be made.
    pub connect_failures: u64,
    /// Requests handed to a backend.
    pub requests: u64,
    /// Response octets received from backends and not yet confirmed delivered:
    /// what the bridge is holding right now.
    pub buffered: usize,
    /// The most it ever held: the bounded-memory claim as a number.
    pub peak_buffered: usize,
    /// Client streams currently being proxied.
    pub client_streams: usize,
    /// The most client streams ever proxied at once: the concurrency claim as a
    /// number. Exact, not sampled.
    pub peak_client_streams: usize,
    /// Live client connections. Admission is advertised per connection while
    /// capacity is a property of the pool.
    pub client_conns: usize,
    /// Second attempts made after a retryable failure.
    pub retries: u64,
    /// Requests refused because an upstream's queue was full.
    pub shed: u64,
    /// Liveness PINGs sent to backends that had gone quiet.
    pub probes: u64,
    /// Probes that went unanswered.
    pub probe_failures: u64,
    /// Responses by status class, 1xx first.
    pub responses: [u64; 5],
    /// Request latency: how many requests took no longer than each bound of
    /// [`LATENCY_BUCKETS`].
    pub latency: [u64; 14],
    pub latency_count: u64,
    pub latency_sum_micros: u64,
}

/// What the counters say.
#[verifier::ext_equal]
pub struct StatsModel {
    pub upstream_connections: usize,
    pub upstream_streams: usize,
    pub peak_upstream_streams: usize,
    pub connects: u64,
    pub connect_failures: u64,
    pub requests: u64,
    pub buffered: usize,
    pub peak_buffered: usize,
    pub client_streams: usize,
    pub peak_client_streams: usize,
    pub client_conns: usize,
    pub retries: u64,
    pub shed: u64,
    pub probes: u64,
    pub probe_failures: u64,
    pub responses: Seq<u64>,
    pub latency: Seq<u64>,
    pub latency_count: u64,
    pub latency_sum_micros: u64,
}

impl View for ProxyStats {
    type V = StatsModel;

    open spec fn view(&self) -> StatsModel {
        StatsModel {
            upstream_connections: self.upstream_connections,
            upstream_streams: self.upstream_streams,
            peak_upstream_streams: self.peak_upstream_streams,
            connects: self.connects,
            connect_failures: self.connect_failures,
            requests: self.requests,
            buffered: self.buffered,
            peak_buffered: self.peak_buffered,
            client_streams: self.client_streams,
            peak_client_streams: self.peak_client_streams,
            client_conns: self.client_conns,
            retries: self.retries,
            shed: self.shed,
            probes: self.probes,
            probe_failures: self.probe_failures,
            responses: self.responses@,
            latency: self.latency@,
            latency_count: self.latency_count,
            latency_sum_micros: self.latency_sum_micros,
        }
    }
}

/// The larger of two counts.
pub open spec fn peak_of(peak: usize, now: usize) -> usize {
    if now > peak {
        now
    } else {
        peak
    }
}

/// Which class a status is in, from 0: what is out of range counts as the
/// nearest.
pub open spec fn class_of(status: u16) -> int {
    let c = status as int / 100;
    if c < 1 {
        0
    } else if c > 5 {
        4
    } else {
        c - 1
    }
}

/// The histogram with one more request that took `nanos`: every bucket whose
/// bound is at or above it counts it.
pub open spec fn observed(latency: Seq<u64>, nanos: u64) -> Seq<u64> {
    Seq::new(
        latency.len(),
        |i: int|
            if nanos <= LATENCY_BUCKETS@[i] {
                latency[i].wrapping_add(1)
            } else {
                latency[i]
            },
    )
}

impl StatsModel {
    /// A response with this status, counted.
    pub open spec fn answered(self, status: u16) -> StatsModel {
        let c = class_of(status);
        StatsModel { responses: self.responses.update(c, self.responses[c].wrapping_add(1)), ..self }
    }

    /// A request that took `nanos`, recorded.
    pub open spec fn observing(self, nanos: u64) -> StatsModel {
        StatsModel {
            latency: observed(self.latency, nanos),
            latency_count: self.latency_count.wrapping_add(1),
            latency_sum_micros: self.latency_sum_micros.wrapping_add((nanos / 1000) as u64),
            ..self
        }
    }

    /// A client stream more, and its high-water mark.
    pub open spec fn stream_opened(self) -> StatsModel {
        StatsModel {
            client_streams: self.client_streams.wrapping_add(1),
            peak_client_streams: peak_of(
                self.peak_client_streams,
                self.client_streams.wrapping_add(1),
            ),
            ..self
        }
    }

    /// A client stream fewer, never below none.
    pub open spec fn stream_closed(self) -> StatsModel {
        StatsModel {
            client_streams: if self.client_streams > 0 {
                (self.client_streams - 1) as usize
            } else {
                0
            },
            ..self
        }
    }
}

impl Default for ProxyStats {
    fn default() -> (s: Self)
        ensures
            s.fresh(),
    {
        ProxyStats {
            upstream_connections: 0,
            upstream_streams: 0,
            peak_upstream_streams: 0,
            connects: 0,
            connect_failures: 0,
            requests: 0,
            buffered: 0,
            peak_buffered: 0,
            client_streams: 0,
            peak_client_streams: 0,
            client_conns: 0,
            retries: 0,
            shed: 0,
            probes: 0,
            probe_failures: 0,
            responses: [0, 0, 0, 0, 0],
            latency: [0, 0, 0, 0, 0, 0, 0, 0, 0, 0, 0, 0, 0, 0],
            latency_count: 0,
            latency_sum_micros: 0,
        }
    }
}

impl ProxyStats {
    /// Nothing has been counted yet.
    pub open spec fn fresh(self) -> bool {
        &&& self.upstream_connections == 0
        &&& self.upstream_streams == 0
        &&& self.peak_upstream_streams == 0
        &&& self.connects == 0
        &&& self.connect_failures == 0
        &&& self.requests == 0
        &&& self.buffered == 0
        &&& self.peak_buffered == 0
        &&& self.client_streams == 0
        &&& self.peak_client_streams == 0
        &&& self.client_conns == 0
        &&& self.retries == 0
        &&& self.shed == 0
        &&& self.probes == 0
        &&& self.probe_failures == 0
        &&& forall|i: int| 0 <= i < 5 ==> #[trigger] self.responses@[i] == 0
        &&& forall|i: int| 0 <= i < 14 ==> #[trigger] self.latency@[i] == 0
        &&& self.latency_count == 0
        &&& self.latency_sum_micros == 0
    }

    /// No count is above its high-water mark.
    pub open spec fn peaks_hold(self) -> bool {
        &&& self.upstream_streams <= self.peak_upstream_streams
        &&& self.buffered <= self.peak_buffered
        &&& self.client_streams <= self.peak_client_streams
    }

    /// An upstream connection is attempted.
    pub fn connect_attempt(&mut self)
        ensures
            final(self)@ == (StatsModel {
                connects: old(self).connects.wrapping_add(1),
                ..old(self)@
            }),
    {
        self.connects = self.connects.wrapping_add(1);
    }

    /// An upstream connection could not be made.
    pub fn connect_failure(&mut self)
        ensures
            final(self)@ == (StatsModel {
                connect_failures: old(self).connect_failures.wrapping_add(1),
                ..old(self)@
            }),
    {
        self.connect_failures = self.connect_failures.wrapping_add(1);
    }

    /// An upstream connection opened.
    pub fn open_connection(&mut self)
        ensures
            final(self)@ == (StatsModel {
                upstream_connections: old(self).upstream_connections.wrapping_add(1),
                ..old(self)@
            }),
    {
        self.upstream_connections = self.upstream_connections.wrapping_add(1);
    }

    /// An upstream connection closed. Never below none: a connect that failed
    /// never opened.
    pub fn close_connection(&mut self)
        ensures
            final(self)@ == (StatsModel {
                upstream_connections: if old(self).upstream_connections > 0 {
                    (old(self).upstream_connections - 1) as usize
                } else {
                    0
                },
                ..old(self)@
            }),
    {
        self.upstream_connections = self.upstream_connections.saturating_sub(1);
    }

    /// An upstream stream opened.
    pub fn open_stream(&mut self)
        ensures
            final(self)@ == (StatsModel {
                upstream_streams: old(self).upstream_streams.wrapping_add(1),
                peak_upstream_streams: peak_of(
                    old(self).peak_upstream_streams,
                    old(self).upstream_streams.wrapping_add(1),
                ),
                ..old(self)@
            }),
            old(self).peaks_hold() ==> final(self).peaks_hold(),
    {
        let now = self.upstream_streams.wrapping_add(1);
        self.upstream_streams = now;
        if now > self.peak_upstream_streams {
            self.peak_upstream_streams = now;
        }
    }

    /// An upstream stream ended.
    pub fn close_stream(&mut self)
        ensures
            final(self)@ == (StatsModel {
                upstream_streams: if old(self).upstream_streams > 0 {
                    (old(self).upstream_streams - 1) as usize
                } else {
                    0
                },
                ..old(self)@
            }),
    {
        self.upstream_streams = self.upstream_streams.saturating_sub(1);
    }

    /// A request was handed to a backend.
    pub fn request(&mut self)
        ensures
            final(self)@ == (StatsModel {
                requests: old(self).requests.wrapping_add(1),
                ..old(self)@
            }),
    {
        self.requests = self.requests.wrapping_add(1);
    }

    /// `n` octets arrived from a backend and are now the bridge's to hold.
    pub fn buffer(&mut self, n: u32)
        ensures
            final(self)@ == (StatsModel {
                buffered: old(self).buffered.wrapping_add(n as usize),
                peak_buffered: peak_of(
                    old(self).peak_buffered,
                    old(self).buffered.wrapping_add(n as usize),
                ),
                ..old(self)@
            }),
            old(self).peaks_hold() ==> final(self).peaks_hold(),
    {
        let now = self.buffered.wrapping_add(n as usize);
        self.buffered = now;
        if now > self.peak_buffered {
            self.peak_buffered = now;
        }
    }

    /// `n` octets reached a client, or died with their stream.
    pub fn unbuffer(&mut self, n: u32)
        ensures
            final(self)@ == (StatsModel {
                buffered: if old(self).buffered >= n {
                    (old(self).buffered - n) as usize
                } else {
                    0
                },
                ..old(self)@
            }),
            old(self).peaks_hold() ==> final(self).peaks_hold(),
    {
        self.buffered = self.buffered.saturating_sub(n as usize);
    }

    pub fn upstream_connections(&self) -> (n: usize)
        ensures
            n == self.upstream_connections,
    {
        self.upstream_connections
    }

    pub fn upstream_streams(&self) -> (n: usize)
        ensures
            n == self.upstream_streams,
    {
        self.upstream_streams
    }

    pub fn peak_upstream_streams(&self) -> (n: usize)
        ensures
            n == self.peak_upstream_streams,
    {
        self.peak_upstream_streams
    }

    pub fn connects(&self) -> (n: u64)
        ensures
            n == self.connects,
    {
        self.connects
    }

    pub fn connect_failures(&self) -> (n: u64)
        ensures
            n == self.connect_failures,
    {
        self.connect_failures
    }

    pub fn requests(&self) -> (n: u64)
        ensures
            n == self.requests,
    {
        self.requests
    }

    pub fn buffered(&self) -> (n: usize)
        ensures
            n == self.buffered,
    {
        self.buffered
    }

    pub fn peak_buffered(&self) -> (n: usize)
        ensures
            n == self.peak_buffered,
    {
        self.peak_buffered
    }

    /// A client stream is being proxied.
    pub fn open_client_stream(&mut self)
        ensures
            final(self)@ == old(self)@.stream_opened(),
            old(self).peaks_hold() ==> final(self).peaks_hold(),
    {
        let now = self.client_streams.wrapping_add(1);
        self.client_streams = now;
        if now > self.peak_client_streams {
            self.peak_client_streams = now;
        }
    }

    /// A client stream is over.
    pub fn close_client_stream(&mut self)
        ensures
            final(self)@ == old(self)@.stream_closed(),
            old(self).peaks_hold() ==> final(self).peaks_hold(),
    {
        self.client_streams = self.client_streams.saturating_sub(1);
    }

    pub fn client_streams(&self) -> (n: usize)
        ensures
            n == self.client_streams,
    {
        self.client_streams
    }

    pub fn peak_client_streams(&self) -> (n: usize)
        ensures
            n == self.peak_client_streams,
    {
        self.peak_client_streams
    }

    /// A client connected.
    pub fn client_connected(&mut self)
        ensures
            final(self)@ == (StatsModel {
                client_conns: old(self).client_conns.wrapping_add(1),
                ..old(self)@
            }),
    {
        self.client_conns = self.client_conns.wrapping_add(1);
    }

    /// A client went away.
    pub fn client_disconnected(&mut self)
        ensures
            final(self)@ == (StatsModel {
                client_conns: old(self).client_conns.wrapping_sub(1),
                ..old(self)@
            }),
    {
        self.client_conns = self.client_conns.wrapping_sub(1);
    }

    pub fn client_conns(&self) -> (n: usize)
        ensures
            n == self.client_conns,
    {
        self.client_conns
    }

    /// A request is tried again.
    pub fn retry(&mut self)
        ensures
            final(self)@ == (StatsModel {
                retries: old(self).retries.wrapping_add(1),
                ..old(self)@
            }),
    {
        self.retries = self.retries.wrapping_add(1);
    }

    pub fn retries(&self) -> (n: u64)
        ensures
            n == self.retries,
    {
        self.retries
    }

    /// A request was refused because a queue was full.
    pub fn shed(&mut self)
        ensures
            final(self)@ == (StatsModel {
                shed: old(self).shed.wrapping_add(1),
                ..old(self)@
            }),
    {
        self.shed = self.shed.wrapping_add(1);
    }

    pub fn shed_total(&self) -> (n: u64)
        ensures
            n == self.shed,
    {
        self.shed
    }

    /// A probe went out.
    pub fn probe_sent(&mut self)
        ensures
            final(self)@ == (StatsModel {
                probes: old(self).probes.wrapping_add(1),
                ..old(self)@
            }),
    {
        self.probes = self.probes.wrapping_add(1);
    }

    /// A probe went unanswered.
    pub fn probe_failure(&mut self)
        ensures
            final(self)@ == (StatsModel {
                probe_failures: old(self).probe_failures.wrapping_add(1),
                ..old(self)@
            }),
    {
        self.probe_failures = self.probe_failures.wrapping_add(1);
    }

    pub fn probes(&self) -> (n: u64)
        ensures
            n == self.probes,
    {
        self.probes
    }

    pub fn probe_failures(&self) -> (n: u64)
        ensures
            n == self.probe_failures,
    {
        self.probe_failures
    }

    /// A response head went to a client with this status.
    pub fn response(&mut self, status: u16)
        ensures
            final(self)@ == old(self)@.answered(status),
    {
        let c = status / 100;
        let class: usize = if c < 1 {
            0
        } else if c > 5 {
            4
        } else {
            c as usize - 1
        };
        let n = self.responses[class].wrapping_add(1);
        self.responses[class] = n;
        assert(self.responses@ =~= old(self).responses@.update(class as int, n));
    }

    /// Responses in class `n` (1 for 1xx, up to 5 for 5xx); none in any other.
    pub fn responses(&self, class: usize) -> (n: u64)
        ensures
            n == (if class == 0 {
                self.responses@[0]
            } else if class <= 5 {
                self.responses@[class - 1]
            } else {
                0
            }),
    {
        let i = class.saturating_sub(1);
        if i < STATUS_CLASSES {
            self.responses[i]
        } else {
            0
        }
    }

    /// Records one completed request's latency.
    pub fn observe_latency(&mut self, nanos: u64)
        ensures
            final(self)@ == old(self)@.observing(nanos),
    {
        let ghost before = self.latency@;
        let mut i: usize = 0;
        while i < 14
            invariant
                i <= 14,
                before.len() == 14,
                before == old(self).latency@,
                self@ == (StatsModel { latency: self.latency@, ..old(self)@ }),
                forall|k: int| 0 <= k < i ==> self.latency@[k] == observed(before, nanos)[k],
                forall|k: int| i <= k < 14 ==> self.latency@[k] == before[k],
            decreases 14 - i,
        {
            if nanos <= LATENCY_BUCKETS[i] {
                let n = self.latency[i].wrapping_add(1);
                self.latency[i] = n;
            }
            i += 1;
        }
        assert(self.latency@ =~= observed(before, nanos));
        self.latency_count = self.latency_count.wrapping_add(1);
        self.latency_sum_micros = self.latency_sum_micros.wrapping_add(nanos / 1000);
    }

    /// The cumulative bucket counts, aligned with [`LATENCY_BUCKETS`].
    pub fn latency_buckets(&self) -> (b: [u64; 14])
        ensures
            b@ == self.latency@,
    {
        self.latency
    }

    pub fn latency_count(&self) -> (n: u64)
        ensures
            n == self.latency_count,
    {
        self.latency_count
    }

    pub fn latency_sum_micros(&self) -> (n: u64)
        ensures
            n == self.latency_sum_micros,
    {
        self.latency_sum_micros
    }

}

// ---------------------------------------------------------------------------
// Laws
// ---------------------------------------------------------------------------

/// The histogram is cumulative: a bucket never counts more than the one above
/// it, and the last counts every request.
pub proof fn the_histogram_is_cumulative(latency: Seq<u64>, nanos: u64, i: int)
    requires
        latency.len() == 14,
        0 <= i < 13,
        latency[i] <= latency[i + 1],
        latency[i + 1] < u64::MAX,
    ensures
        observed(latency, nanos)[i] <= observed(latency, nanos)[i + 1],
        nanos > LATENCY_BUCKETS@[i] ==> observed(latency, nanos)[i] == latency[i],
        observed(latency, nanos)[13] == latency[13].wrapping_add(1),
{
    assert(LATENCY_BUCKETS@[i] <= LATENCY_BUCKETS@[i + 1]);
}

/// A peak is the largest of what was seen: it never falls, and is what is there
/// now or what was there before.
pub proof fn a_peak_is_the_largest_seen(s: StatsModel, peak: usize, now: usize)
    ensures
        peak_of(peak, now) >= peak && peak_of(peak, now) >= now,
        peak_of(peak, now) == peak || peak_of(peak, now) == now,
        s.client_streams < usize::MAX ==> s.stream_opened().client_streams == s.client_streams + 1
            && s.stream_opened().peak_client_streams >= s.client_streams + 1
            && s.stream_opened().peak_client_streams >= s.peak_client_streams,
        s.stream_closed().peak_client_streams == s.peak_client_streams,
{
}

} // verus!
