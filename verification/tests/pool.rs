use h2proxy_core::health::Policy;
use h2proxy_core::lb::{Address, Backend};
use h2proxy_core::pool::{
    Lease, Pool, UpstreamRecord, ASSUMED_MAX_CONCURRENT, ID_EXHAUSTION_MARGIN, MAX_REQUESTS,
};
use h2proxy_core::stream::MAX_LOCAL_STREAM_ID;

fn backend(port: u16) -> Backend {
    Backend::new(Address::v4(127, 0, 0, 1, port))
}

fn record() -> UpstreamRecord {
    UpstreamRecord::new(0, 0)
}

#[test]
fn every_lease_names_a_distinct_request() {
    let mut record = record();
    let ids: Vec<u32> = (0..100).map(|_| record.lease(0).get()).collect();
    assert!(
        ids.windows(2).all(|w| w[0] < w[1]),
        "request ids must be unique",
    );
    assert_eq!(record.live, 100);
}

#[test]
fn dropping_a_lease_frees_the_slot() {
    let mut record = record();
    record.lease(0);
    assert_eq!(record.live, 1);
    record.release();
    assert_eq!(record.live, 0);
}

#[test]
fn a_connection_stops_being_usable_near_the_end_of_the_id_space() {
    let mut record = record();
    assert!(record.usable(0, u64::MAX));
    record.issued = MAX_LOCAL_STREAM_ID / 2;
    assert!(
        !record.usable(0, u64::MAX),
        "an exhausted connection must be replaced, not wrapped: ids are never reused",
    );
}

#[test]
fn room_follows_the_backends_advertised_limit() {
    let mut record = record();
    record.set_max_concurrent(2);
    record.lease(0);
    record.lease(0);
    assert!(!record.has_room(), "at the backend's limit");
}

#[test]
fn checkout_fills_one_connection_before_opening_another() {
    let mut pool = Pool::new(4);
    // What matters is which connection the leases land on.
    let leases: Vec<Lease> = (0..10)
        .map(|_| pool.checkout(&backend(1), 0).expect("a lease"))
        .collect();
    assert_eq!(leases.len(), 10);
    assert_eq!(
        pool.connection_count(0),
        1,
        "ten streams must coalesce onto one connection",
    );
    assert!(leases[0].opened && leases[1..].iter().all(|l| !l.opened));
}

#[test]
fn a_full_connection_opens_a_second_one() {
    let mut pool = Pool::new(4);
    let first = pool.checkout(&backend(2), 0).expect("a lease");
    pool.set_max_concurrent(&first.backend, first.key, 1);
    let second = pool.checkout(&backend(2), 0).expect("a second lease");
    assert_eq!(pool.connection_count(0), 2);
    assert_ne!(first.key, second.key);
}

#[test]
fn an_idle_connection_is_recycled_but_a_busy_one_is_not() {
    // The common upstream keep-alive is 65 s, so a pool that holds connections
    // forever eventually hands a request to a socket the backend is closing.
    let mut record = record();
    assert!(
        record.usable(1_000, 60_000),
        "fresh, and inside the timeout"
    );
    assert!(
        record.usable(60_000, 60_000) || record.live == 0,
        "sanity",
    );

    // Idle past the timeout with nothing in flight: recycle.
    assert!(!record.usable(60_001, 60_000));

    // Same age, but a stream is live: keep it. Recycling a connection with
    // work on it would abandon that work.
    record.lease(0);
    assert!(
        record.usable(60_001, 60_000),
        "a connection with a live stream is not idle, however old",
    );
}

#[test]
fn a_checkout_keeps_a_connection_from_going_idle() {
    let mut record = record();
    record.lease(0);
    record.release();
    assert!(!record.usable(60_001, 60_000), "idle since ms 0");
    record.lease(60_000);
    record.release();
    assert!(
        record.usable(60_001, 60_000),
        "a checkout must count as use, or a busy pool churns its connections",
    );
}

#[test]
fn a_saturated_pool_queues_rather_than_refusing() {
    let mut pool = Pool::new(1);
    let lease = pool.checkout(&backend(3), 0).expect("a lease");
    pool.set_max_concurrent(&lease.backend, lease.key, 1);

    // At the connection ceiling with the only connection full. Refusing here
    // would make a busy backend look like a broken one: the connection holds
    // the request until a stream frees up, so saturation costs latency instead.
    let queued = pool.checkout(&backend(3), 0).expect("a lease, not an error");
    assert_eq!(
        pool.connection_count(0),
        1,
        "the ceiling still bounds connections",
    );
    assert_eq!(queued.key, lease.key);
}

#[test]
fn a_retired_connection_takes_no_more() {
    let mut pool = Pool::new(4);
    let first = pool.checkout(&backend(1), 0).expect("a lease");
    pool.retire(&first.backend, first.key);
    let second = pool.checkout(&backend(1), 0).expect("a lease");
    assert_ne!(first.key, second.key);
    // Returning the old lease is harmless either way.
    pool.release(&first);
    pool.release(&second);
    assert_eq!(
        pool.find(&second.backend, second.key).expect("still pooled").live,
        0
    );
}

#[test]
fn load_is_what_is_out_on_lease() {
    let mut pool = Pool::new(4);
    let (a, b) = (backend(1), backend(2));
    let first = pool.checkout(&a, 0).expect("a lease");
    pool.checkout(&a, 0).expect("a lease");
    let load = pool.load(&[a, b]);
    assert_eq!((load[0].backend, load[0].outstanding), (a, 2));
    assert_eq!((load[1].backend, load[1].outstanding), (b, 0));
    pool.release(&first);
    assert_eq!(pool.load(&[a])[0].outstanding, 1);
}

#[test]
fn an_idle_pool_empties_itself() {
    let policy = Policy { idle_timeout: 5_000_000_000, ..Policy::default() };
    let mut pool = Pool::with_policy(4, &policy);
    let lease = pool.checkout(&backend(1), 0).expect("a lease");
    assert_eq!(pool.connection_count(9_000), 1, "busy, however old");
    pool.release(&lease);
    assert_eq!(pool.connection_count(4_999), 1);
    assert_eq!(pool.connection_count(5_000), 0);
}

#[test]
fn the_pool_carries_the_shed_signal() {
    let mut pool = Pool::new(1);
    assert!(!pool.near_shed_limit());
    pool.set_near_shed_limit(true);
    assert!(pool.near_shed_limit());
}

#[test]
fn the_id_budget_leaves_a_margin() {
    assert_eq!(ASSUMED_MAX_CONCURRENT, 100);
    assert_eq!(MAX_REQUESTS, MAX_LOCAL_STREAM_ID / 2 - ID_EXHAUSTION_MARGIN);
    let mut record = record();
    record.issued = MAX_REQUESTS - 1;
    assert!(record.usable(0, 1));
    record.lease(0);
    assert!(!record.usable(0, 1));
}
