use h2proxy_core::guard::{Bucket, Guard, Limits, Rate, Signal, Verdict, UNLIMITED};

const MILLI: u64 = 1_000_000;
const SECOND: u64 = 1_000_000_000;

/// Events in a second, at this rate.
fn per_second(rate: &Rate) -> u64 {
    u64::from(rate.events) * SECOND / rate.nanos
}

fn at(base: u64, ms: u64) -> u64 {
    base + ms * MILLI
}

fn guard(limits: Limits) -> (Guard, u64) {
    let now = 77 * SECOND;
    (Guard::new(limits, now), now)
}

// ---- the bucket --------------------------------------------------------

#[test]
fn a_burst_is_absorbed_and_the_next_one_is_not() {
    let limits = Limits {
        reset_burst: 10,
        reset_rate: 1,
        ..Limits::permissive()
    };
    let (mut g, base) = guard(limits);
    // Ten at the same instant is exactly the burst.
    for i in 0..10 {
        assert_eq!(
            g.on_reset(true, base),
            Verdict::Pass,
            "reset {i} of the burst"
        );
    }
    assert_eq!(
        g.on_reset(true, base),
        Verdict::Trip(Signal::Resets),
        "the eleventh has no token to spend",
    );
}

#[test]
fn the_bucket_refills_at_its_rate() {
    let limits = Limits {
        reset_burst: 5,
        reset_rate: 10,
        ..Limits::permissive()
    };
    let (mut g, base) = guard(limits);
    for _ in 0..5 {
        assert_eq!(g.on_reset(true, base), Verdict::Pass);
    }
    assert_eq!(g.on_reset(true, base), Verdict::Trip(Signal::Resets));
    // 10/s means one token per 100 ms.
    assert_eq!(g.on_reset(true, at(base, 100)), Verdict::Pass);
    assert_eq!(
        g.on_reset(true, at(base, 100)),
        Verdict::Trip(Signal::Resets)
    );
}

#[test]
fn a_sustained_rate_below_the_limit_never_trips() {
    // The property that matters more than any trip: legitimate traffic must
    // survive indefinitely, not merely for a while.
    let limits = Limits {
        reset_burst: 10,
        reset_rate: 10,
        ..Limits::permissive()
    };
    let (mut g, base) = guard(limits);
    // 5/s for a simulated minute, against a 10/s limit.
    for i in 0..300u64 {
        let now = at(base, i * 200);
        assert_eq!(
            g.on_reset(true, now),
            Verdict::Pass,
            "tripped at event {i}, {}s in, at half the configured rate",
            i / 5,
        );
    }
}

#[test]
fn a_bucket_never_refills_past_its_burst() {
    // Otherwise an hour of silence buys an hour's worth of attack.
    let limits = Limits {
        reset_burst: 3,
        reset_rate: 100,
        ..Limits::permissive()
    };
    let (mut g, base) = guard(limits);
    let later = base + 3600 * SECOND;
    for _ in 0..3 {
        assert_eq!(g.on_reset(true, later), Verdict::Pass);
    }
    assert_eq!(
        g.on_reset(true, later),
        Verdict::Trip(Signal::Resets),
        "an idle hour must not bank 360,000 tokens",
    );
}

// ---- the Rapid Reset signature -----------------------------------------

#[test]
fn unanswered_resets_trip_sooner_than_answered_ones() {
    // The distinction the whole mitigation rests on. A client that cancels
    // streams it has already been answered on is behaving normally; one that
    // abandons streams before they can be served is the attack.
    let limits = Limits {
        reset_burst: 1000,
        reset_rate: 1000,
        unanswered_burst: 10,
        unanswered_rate: 1,
        ..Limits::permissive()
    };
    let (mut g, base) = guard(limits);

    // 50 resets on streams we answered: ordinary cancellation, no trip.
    for _ in 0..50 {
        assert_eq!(g.on_reset(true, base), Verdict::Pass);
    }
    // 10 unanswered exhausts that budget, and the 11th trips.
    for _ in 0..10 {
        assert_eq!(g.on_reset(false, base), Verdict::Pass);
    }
    assert_eq!(
        g.on_reset(false, base),
        Verdict::Trip(Signal::UnansweredResets),
    );
}

// ---- the count-based signals -------------------------------------------

#[test]
fn empty_data_frames_must_be_consecutive_to_count() {
    let limits = Limits {
        max_consecutive_empty: 3,
        ..Limits::permissive()
    };
    let (mut g, _) = guard(limits);
    for _ in 0..3 {
        assert_eq!(g.on_data(0, false), Verdict::Pass);
    }
    // One real frame clears the run, so an honest client that happens to
    // emit empty frames now and then is unaffected.
    assert_eq!(g.on_data(16, false), Verdict::Pass);
    for _ in 0..3 {
        assert_eq!(g.on_data(0, false), Verdict::Pass);
    }
    assert_eq!(g.on_data(0, false), Verdict::Trip(Signal::EmptyFrames));
}

#[test]
fn an_empty_frame_that_ends_a_stream_is_not_a_flood() {
    // An empty DATA carrying END_STREAM is how a body ends. Counting it
    // would break every client that sends one.
    let limits = Limits {
        max_consecutive_empty: 2,
        ..Limits::permissive()
    };
    let (mut g, _) = guard(limits);
    for _ in 0..100 {
        assert_eq!(g.on_data(0, true), Verdict::Pass);
    }
}

#[test]
fn continuations_are_counted_per_block_not_per_connection() {
    let limits = Limits {
        max_continuations: 4,
        ..Limits::permissive()
    };
    let (mut g, _) = guard(limits);
    for _ in 0..20 {
        for _ in 0..4 {
            assert_eq!(g.on_continuation(), Verdict::Pass);
        }
        g.on_header_block_end();
    }
    // ...but one block may not exceed it.
    for _ in 0..4 {
        assert_eq!(g.on_continuation(), Verdict::Pass);
    }
    assert_eq!(g.on_continuation(), Verdict::Trip(Signal::Continuations));
}

// ---- observe-only ------------------------------------------------------

#[test]
fn observe_only_measures_without_tripping() {
    let limits = Limits {
        reset_burst: 1,
        reset_rate: 0,
        max_consecutive_empty: 0,
        max_continuations: 0,
        observe_only: true,
        ..Limits::default()
    };
    let (mut g, base) = guard(limits);
    for i in 0..1000u64 {
        assert_eq!(g.on_reset(false, at(base, i)), Verdict::Pass);
        assert_eq!(g.on_data(0, false), Verdict::Pass);
        assert_eq!(g.on_continuation(), Verdict::Pass);
    }
    let peaks = g.peaks(at(base, 1000));
    assert!(
        peaks.resets_per_sec.events > 0,
        "observe-only must still measure, or calibration has nothing to read",
    );
    assert_eq!(peaks.max_consecutive_empty, 1000);
    assert_eq!(peaks.max_continuations, 1000);
}

#[test]
fn the_peak_rate_reflects_what_actually_happened() {
    let (mut g, base) = guard(Limits::permissive());
    // 100 resets inside one second.
    for i in 0..100u64 {
        let _ = g.on_reset(true, at(base, i * 10));
    }
    let peak = per_second(&g.peaks(at(base, 1000)).resets_per_sec);
    assert!(
        (90..=110).contains(&peak),
        "expected about 100/s, measured {peak}",
    );
}

#[test]
fn a_short_burst_is_not_reported_as_a_colossal_rate() {
    // Dividing an in-progress window by the elapsed time would extrapolate:
    // two events 200 us apart would read as 10,000 per second, a rate no
    // traffic ever reached.
    //
    // Bursts are the bucket's job; this measures *sustained* rate.
    let (mut g, base) = guard(Limits::permissive());
    for i in 0..5u64 {
        let _ = g.on_control_frame(base + i * 50_000);
    }
    let peak = per_second(&g.peaks(base + 200_000).control_per_sec);
    assert!(
        peak <= 5,
        "five events inside a millisecond reported as {peak}/s; a partial \
         window must be scored over a whole one, not extrapolated",
    );
}

#[test]
fn a_permissive_guard_never_trips_on_anything() {
    // The escape hatch has to be total, or every test that is not about the
    // guard becomes about the guard.
    let (mut g, base) = guard(Limits::permissive());
    for i in 0..10_000u64 {
        assert_eq!(g.on_reset(false, at(base, i / 100)), Verdict::Pass);
        assert_eq!(g.on_control_frame(at(base, i / 100)), Verdict::Pass);
        assert_eq!(g.on_data(0, false), Verdict::Pass);
        assert_eq!(g.on_continuation(), Verdict::Pass);
    }
}

#[test]
fn a_clock_that_goes_backwards_is_survivable() {
    // The guard is fed from a call site that could plausibly reorder.
    let limits = Limits {
        reset_burst: 5,
        reset_rate: 5,
        ..Limits::permissive()
    };
    let (mut g, base) = guard(limits);
    let later = at(base, 10_000);
    let _ = g.on_reset(true, later);
    let _ = g.on_reset(true, base);
    let _ = g.peaks(base);
}

#[test]
fn a_tripped_guard_remembers_the_signal() {
    let limits = Limits {
        control_burst: 1,
        control_rate: 0,
        ..Limits::permissive()
    };
    let (mut g, base) = guard(limits);
    assert_eq!(g.last_trip(), None);
    assert_eq!(g.on_control_frame(base).tripped(), None);
    assert_eq!(
        g.on_control_frame(base).tripped(),
        Some(Signal::ControlFrames)
    );
    assert_eq!(g.last_trip(), Some(Signal::ControlFrames));
}

#[test]
fn signals_have_names_for_the_metrics() {
    let names: Vec<&str> = [
        Signal::Resets,
        Signal::UnansweredResets,
        Signal::ControlFrames,
        Signal::EmptyFrames,
        Signal::Continuations,
    ]
    .iter()
    .map(|s| s.as_str())
    .collect();
    assert_eq!(
        names,
        ["resets", "unanswered_resets", "control_frames", "empty_frames", "continuations"]
    );
}

#[test]
fn a_bucket_refills_a_fraction_at_a_time() {
    // Three tokens a second: one every third of a second, to the nanosecond.
    let mut b = Bucket::new(1, 3, 0);
    assert!(b.take(0));
    assert!(!b.take(333_333_333));
    assert!(b.take(333_333_334));
    let mut free = Bucket::new(UNLIMITED, UNLIMITED, 0);
    for _ in 0..1000 {
        assert!(free.take(0));
    }
}
