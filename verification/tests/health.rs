use h2proxy_core::health::{Health, Policy, State};
use h2proxy_core::lb::{Address, Backend, BackendLoad};

const SECOND: u64 = 1_000_000_000;

fn backend(port: u16) -> Backend {
    Backend::new(Address::v4(127, 0, 0, 1, port))
}

fn load(b: Backend) -> BackendLoad {
    BackendLoad {
        backend: b,
        outstanding: 0,
    }
}

fn policy() -> Policy {
    Policy {
        eject_after: 3,
        base_backoff: 10 * SECOND,
        max_backoff: 40 * SECOND,
        ..Policy::default()
    }
}

#[test]
fn consecutive_failures_eject_and_a_success_clears_the_run() {
    let mut h = Health::new(policy());
    let now = 100 * SECOND;
    let b = backend(1);

    h.failure(&b, now);
    h.failure(&b, now);
    assert_eq!(
        h.state(&b, now),
        State::Healthy,
        "two is under the threshold"
    );
    // A success in the middle means the failures were not consecutive, which
    // is the whole point of the word.
    h.success(&b);
    h.failure(&b, now);
    h.failure(&b, now);
    assert_eq!(h.state(&b, now), State::Healthy);
    h.failure(&b, now);
    assert_eq!(h.state(&b, now), State::Ejected);
}

#[test]
fn an_ejected_backend_is_not_offered_to_the_balancer() {
    let mut h = Health::new(policy());
    let now = 100 * SECOND;
    let (a, b) = (backend(1), backend(2));
    for _ in 0..3 {
        h.failure(&a, now);
    }
    let eligible = h.eligible(&[load(a), load(b)], now);
    assert_eq!(eligible.len(), 1);
    assert_eq!(eligible[0].backend, b);
}

#[test]
fn exactly_one_trial_request_probes_a_recovering_backend() {
    // The anti-flap property. When the ejection expires the backend must not
    // get its full share back at once — if it is still sick, that is a burst
    // of failed requests every backoff period, forever.
    let mut h = Health::new(policy());
    let start = 100 * SECOND;
    let a = backend(1);
    let b = backend(2);
    for _ in 0..3 {
        h.failure(&a, start);
    }
    let later = start + 11 * SECOND;
    assert_eq!(h.state(&a, later), State::HalfOpen);

    // Offered once expiry passes...
    let first = h.eligible(&[load(a), load(b)], later);
    assert!(first.iter().any(|c| c.backend == a), "the trial is offered");
    // ...and once the balancer actually chooses it, claimed...
    h.claim_trial(&a, later);
    // ...after which it is offered to nobody else until the outcome lands.
    for _ in 0..50 {
        let next = h.eligible(&[load(a), load(b)], later);
        assert!(
            !next.iter().any(|c| c.backend == a),
            "a second request reached a backend with a trial still in flight",
        );
    }
}

#[test]
fn offering_a_trial_that_the_balancer_declines_does_not_strand_the_backend() {
    // Offering a backend is not sending to it: were the trial claimed by the
    // offer, a balancer that picked the other candidate would leave the flag
    // set with no request behind it, and nothing could ever clear it.
    let mut h = Health::new(policy());
    let start = 100 * SECOND;
    let (a, b) = (backend(1), backend(2));
    for _ in 0..3 {
        h.failure(&a, start);
    }
    let later = start + 11 * SECOND;

    // Offer repeatedly, but always "choose" the other backend.
    for _ in 0..20 {
        let offered = h.eligible(&[load(a), load(b)], later);
        assert!(
            offered.iter().any(|c| c.backend == a),
            "a half-open backend nobody has probed must keep being offered",
        );
        h.claim_trial(&b, later);
    }

    // Now actually choose it, and let it succeed.
    h.claim_trial(&a, later);
    h.success(&a);
    assert_eq!(h.state(&a, later), State::Healthy);
}

#[test]
fn a_failed_trial_re_ejects_with_a_longer_backoff() {
    let mut h = Health::new(policy());
    let start = 100 * SECOND;
    let a = backend(1);
    for _ in 0..3 {
        h.failure(&a, start);
    }
    let t1 = start + 11 * SECOND;
    h.claim_trial(&a, t1);
    h.failure(&a, t1);

    // Still ejected 10 s later, because the backoff doubled to 20 s.
    assert_eq!(h.state(&a, t1 + 15 * SECOND), State::Ejected);
    assert_eq!(h.state(&a, t1 + 21 * SECOND), State::HalfOpen);
}

#[test]
fn a_successful_trial_restores_the_backend_fully() {
    let mut h = Health::new(policy());
    let start = 100 * SECOND;
    let a = backend(1);
    for _ in 0..3 {
        h.failure(&a, start);
    }
    let t1 = start + 11 * SECOND;
    h.claim_trial(&a, t1);
    h.success(&a);
    assert_eq!(h.state(&a, t1), State::Healthy);
    // ...and the backoff resets, so an unrelated failure later starts over.
    for _ in 0..3 {
        h.failure(&a, t1);
    }
    assert_eq!(h.state(&a, t1 + 11 * SECOND), State::HalfOpen);
}

#[test]
fn the_backoff_stops_doubling_at_its_ceiling() {
    let mut h = Health::new(policy());
    let mut now = 100 * SECOND;
    let a = backend(1);
    for _ in 0..3 {
        h.failure(&a, now);
    }
    // Fail ten trials in a row; the backoff must not run away.
    for _ in 0..10 {
        now += 60 * SECOND;
        h.claim_trial(&a, now);
        h.failure(&a, now);
    }
    assert_eq!(
        h.state(&a, now + 41 * SECOND),
        State::HalfOpen,
        "backoff exceeded max_backoff; a recovered backend would stay out",
    );
}

#[test]
fn everything_ejected_fails_open_rather_than_refusing_traffic() {
    // Ejection is a guess, and a wrong guess that refuses all traffic turns a
    // partial outage into a total one.
    let mut h = Health::new(policy());
    let now = 100 * SECOND;
    let (a, b) = (backend(1), backend(2));
    for _ in 0..3 {
        h.failure(&a, now);
        h.failure(&b, now);
    }
    let eligible = h.eligible(&[load(a), load(b)], now);
    assert_eq!(
        eligible.len(),
        2,
        "with every backend ejected the proxy must still try one, not 503 \
         everything on the strength of its own heuristic",
    );
}

#[test]
fn a_healthy_backend_is_never_ejected_however_long_it_runs() {
    let mut h = Health::new(policy());
    let mut now = 100 * SECOND;
    let a = backend(1);
    for _ in 0..10_000 {
        now += 1_000_000;
        h.success(&a);
        assert_eq!(h.state(&a, now), State::Healthy);
    }
}

#[test]
fn an_intermittent_backend_does_not_oscillate_into_permanent_ejection() {
    // A backend failing half its requests is unwell but usable, and the
    // common wrong behaviour is to eject it, restore it, eject it again in a
    // cycle that costs a burst of errors each time. Alternating outcomes
    // never reach `eject_after` consecutive failures, so it stays in.
    let mut h = Health::new(policy());
    let mut now = 100 * SECOND;
    let a = backend(1);
    for i in 0..1000 {
        now += 10_000_000;
        if i % 2 == 0 {
            h.failure(&a, now);
        } else {
            h.success(&a);
        }
    }
    assert_eq!(h.state(&a, now), State::Healthy);
    assert_eq!(h.ejections(), 0);
}

#[test]
fn healthy_count_tracks_what_the_gauge_should_show() {
    let mut h = Health::new(policy());
    let now = 100 * SECOND;
    let (a, b, c) = (backend(1), backend(2), backend(3));
    assert_eq!(h.healthy_count(&[a, b, c], now), 3, "unknown means healthy");
    for _ in 0..3 {
        h.failure(&a, now);
    }
    assert_eq!(h.healthy_count(&[a, b, c], now), 2);
    assert_eq!(h.ejections(), 1);
}

#[test]
fn a_permissive_policy_never_ejects() {
    let mut h = Health::new(Policy::permissive());
    let a = backend(1);
    for _ in 0..1000 {
        h.failure(&a, 0);
    }
    assert_eq!(h.state(&a, 0), State::Healthy);
    assert_eq!(h.policy().eject_after, u32::MAX);
}

#[test]
fn at_most_one_recovering_backend_is_offered() {
    let mut h = Health::new(policy());
    let now = 100 * SECOND;
    let (a, b, c, d) = (backend(1), backend(2), backend(3), backend(4));
    for failed in [a, c, d] {
        for _ in 0..3 {
            h.failure(&failed, now);
        }
    }
    let all = [load(a), load(b), load(c), load(d)];
    let then = now + 10 * SECOND;
    assert_eq!(h.state(&a, then), State::HalfOpen);
    assert_eq!(h.state(&c, then), State::HalfOpen);
    // The first in order, and the healthy one.
    let offered = |h: &Health| -> Vec<Backend> {
        h.eligible(&all, then).iter().map(|l| l.backend).collect()
    };
    assert_eq!(offered(&h), [a, b]);
    assert_eq!(offered(&h), [a, b], "looking changes nothing");
    // Its trial is out: the next one gets its turn.
    h.claim_trial(&a, then);
    assert_eq!(offered(&h), [b, c]);
    h.claim_trial(&c, then);
    assert_eq!(offered(&h), [b, d]);
    h.success(&c);
    assert_eq!(offered(&h), [b, c, d]);
    // With nothing worth sending to, everything is offered.
    h.claim_trial(&d, then);
    for _ in 0..3 {
        h.failure(&b, then);
        h.failure(&c, then);
    }
    assert_eq!(offered(&h), [a, b, c, d]);
}
