use h2proxy_core::lb::{Address, Backend, BackendLoad, LoadBalancer, PowerOfTwoChoices};

fn backend(port: u16) -> Backend {
    Backend::new(Address::v4(127, 0, 0, 1, port))
}

fn load(port: u16, outstanding: usize) -> BackendLoad {
    BackendLoad {
        backend: backend(port),
        outstanding,
    }
}

#[test]
fn no_candidates_means_no_pick() {
    assert_eq!(PowerOfTwoChoices::new().pick(&[]), None);
}

#[test]
fn a_single_candidate_is_always_chosen() {
    let mut lb = PowerOfTwoChoices::new();
    assert_eq!(lb.pick(&[load(8080, 999)]), Some(backend(8080)));
}

#[test]
fn the_two_samples_are_always_distinct() {
    // With two backends the pair is forced, so the *less loaded* one must
    // win every single time — this is the property that catches "sample
    // twice and hope", which would pick the busy one whenever both draws
    // collide on it.
    let mut lb = PowerOfTwoChoices::seeded(1);
    for _ in 0..200 {
        assert_eq!(
            lb.pick(&[load(8080, 10), load(8081, 0)]),
            Some(backend(8081)),
        );
    }
}

#[test]
fn an_idle_backend_wins_most_of_the_time_in_a_crowd() {
    // The probabilistic half of the claim: with one idle backend among four
    // busy ones, two samples find it whenever either draw lands on it —
    // about 40% of the time, versus 20% for round-robin.
    let mut lb = PowerOfTwoChoices::seeded(99);
    let candidates = [
        load(8080, 50),
        load(8081, 50),
        load(8082, 0),
        load(8083, 50),
        load(8084, 50),
    ];
    let idle = (0..1000)
        .filter(|_| lb.pick(&candidates) == Some(backend(8082)))
        .count();
    assert!(
        (300..=500).contains(&idle),
        "expected the idle backend around 40% of the time, got {idle}/1000",
    );
}

#[test]
fn equal_load_still_spreads() {
    // Nothing may collapse onto one backend when they are all the same.
    let mut lb = PowerOfTwoChoices::seeded(7);
    let candidates = [load(8080, 5), load(8081, 5), load(8082, 5)];
    let mut counts = [0usize; 3];
    for _ in 0..900 {
        let picked = lb.pick(&candidates).expect("a backend");
        let index = candidates
            .iter()
            .position(|c| c.backend == picked)
            .expect("one of ours");
        counts[index] += 1;
    }
    for count in counts {
        assert!(count > 150, "lopsided distribution: {counts:?}");
    }
}

#[test]
fn the_generator_does_not_stick() {
    let mut lb = PowerOfTwoChoices::default();
    let candidates = [load(1, 0), load(2, 0), load(3, 0)];
    let mut seen = Vec::new();
    for _ in 0..100 {
        let port = match lb.pick(&candidates).expect("a backend").addr {
            Address::V4 { port, .. } => port,
            Address::V6 { port, .. } => port,
        };
        if !seen.contains(&port) {
            seen.push(port);
        }
    }
    assert_eq!(seen.len(), 3, "the generator got stuck");
}
