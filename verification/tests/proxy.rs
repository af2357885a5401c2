use bytes::Bytes;
use h2proxy_core::conn::ErrorCode;
use h2proxy_core::health::{Policy, State};
use h2proxy_core::hpack::Header;
use h2proxy_core::lb::{Address, Backend};
use h2proxy_core::proxy::admission::{Admission, MIN_ADMIT, MIN_TOTAL};
use h2proxy_core::proxy::forward::is_idempotent;
use h2proxy_core::proxy::stats::{ProxyStats, LATENCY_BUCKETS};
use h2proxy_core::proxy::{Placed, Proxy, Shared};
use h2proxy_core::service::{RequestHead, Response, ServiceEvent};
use h2proxy_core::stream::StreamId;
use h2proxy_core::upstream::ToUpstream;

// ---------------------------------------------------------------------
// Admission control
// ---------------------------------------------------------------------

fn shared_with_conns(conns: usize) -> Shared {
    let mut shared = Shared::new(vec![Backend::new(Address::v4(127, 0, 0, 1, 9))], 8);
    for _ in 0..conns {
        shared.stats.client_connected();
    }
    shared
}

#[test]
fn admission_recovers_from_distress_in_a_bounded_number_of_samples() {
    // A single transient must not pin the proxy for minutes: that would be a
    // ratchet, not a controller.
    let mut shared = shared_with_conns(50);

    // One distress event. `shed_total` moving is the signal.
    shared.stats.shed();
    let after_distress = shared.recompute_admission();
    assert!(
        after_distress < shared.tuning.max_concurrent_streams,
        "distress must actually reduce the budget, or this test proves nothing",
    );

    // Now quiet. Recovery must be measured in samples, not minutes.
    let mut samples = 0;
    while shared.recompute_admission() < shared.tuning.max_concurrent_streams {
        samples += 1;
        assert!(
            samples < 32,
            "recovery took more than 32 samples; at the loop's period that is \
             a ratchet rather than a controller (reached {})",
            shared.admission_advertised(),
        );
    }
}

#[test]
fn admission_steers_the_total_not_the_per_connection_share() {
    // Distress is a property of the whole proxy, but the budget is advertised
    // per connection.
    //
    // At full health every connection gets the ceiling and there is nothing
    // to divide, so the property only has teeth once the loop has retreated.
    let mut shared = shared_with_conns(10);
    for _ in 0..6 {
        shared.stats.shed();
        shared.recompute_admission();
    }
    let constrained_total = shared.admit_total();
    let share_of_ten = shared.admission_advertised();
    assert!(
        share_of_ten < shared.tuning.max_concurrent_streams,
        "the loop must actually be constrained for this test to mean anything",
    );

    // Ninety more clients arrive to share the same constrained total.
    for _ in 0..90 {
        shared.stats.client_connected();
    }
    shared.stats.shed();
    shared.recompute_admission();

    assert!(
        shared.admission_advertised() < share_of_ten,
        "ten times the claimants on a total that did not grow must mean a \
         smaller share each ({} -> {})",
        share_of_ten,
        shared.admission_advertised(),
    );
    assert!(
        shared.admit_total() <= constrained_total,
        "arriving connections must not inflate the total the loop settled on",
    );
}

fn request(path: &'static str) -> RequestHead {
    RequestHead::from_headers(&[
        Header::new(Bytes::from_static(b":method"), Bytes::from_static(b"GET")),
        Header::new(Bytes::from_static(b":scheme"), Bytes::from_static(b"http")),
        Header::new(
            Bytes::from_static(b":authority"),
            Bytes::from_static(b"a.example"),
        ),
        Header::new(
            Bytes::from_static(b":path"),
            Bytes::from_static(path.as_bytes()),
        ),
        Header::new(Bytes::from_static(b"te"), Bytes::from_static(b"trailers")),
        Header::new(Bytes::from_static(b"accept"), Bytes::from_static(b"*/*")),
    ])
    .expect("well-formed")
}

#[test]
fn sanitizing_drops_te_and_keeps_the_authority() {
    let mut head = request("/");
    Proxy::sanitize(&mut head);
    assert!(
        head.fields.iter().all(|f| f.name.as_ref() != b"te"),
        "te describes the client hop and means nothing upstream",
    );
    assert_eq!(
        head.authority.as_deref(),
        Some(&b"a.example"[..]),
        "rewriting the authority would change which vhost the backend serves",
    );
    assert!(head.fields.iter().any(|f| f.name.as_ref() == b"accept"));
}

fn forwarded_for(head: &RequestHead) -> Option<String> {
    head.fields
        .iter()
        .find(|f| f.name.as_ref() == b"x-forwarded-for")
        .map(|f| String::from_utf8_lossy(&f.value).into_owned())
}

fn proxy_with_peer(trust: bool) -> Proxy {
    Proxy::new(1, &mut Shared::new(Vec::new(), 1))
        .with_peer("203.0.113.7".to_string())
        .trusting_forwarded_headers(trust)
}

#[test]
fn a_forged_forwarded_for_is_replaced_by_default() {
    // Appending to a client-supplied chain lets any client prepend whatever it
    // likes, and the backend then cannot tell which entry we observed.
    let mut head = request("/");
    head.fields.push(Header::new(
        Bytes::from_static(b"x-forwarded-for"),
        Bytes::from_static(b"10.0.0.1, 192.168.1.1"),
    ));
    proxy_with_peer(false).add_forwarded(&mut head);
    assert_eq!(
        forwarded_for(&head).as_deref(),
        Some("203.0.113.7"),
        "the client's own claim about who it is must not survive",
    );
    assert_eq!(
        head.fields
            .iter()
            .filter(|f| f.name.as_ref() == b"x-forwarded-for")
            .count(),
        1,
        "exactly one x-forwarded-for, or the backend picks arbitrarily",
    );
}

#[test]
fn a_trusted_chain_is_appended_to() {
    // Only when something trustworthy runs in front and the operator says so.
    let mut head = request("/");
    head.fields.push(Header::new(
        Bytes::from_static(b"x-forwarded-for"),
        Bytes::from_static(b"10.0.0.1"),
    ));
    proxy_with_peer(true).add_forwarded(&mut head);
    assert_eq!(
        forwarded_for(&head).as_deref(),
        Some("10.0.0.1, 203.0.113.7"),
    );
}

#[test]
fn without_a_peer_no_forwarding_header_is_invented() {
    // Making an address up would be a lie in a header a backend might act on.
    let mut head = request("/");
    Proxy::new(1, &mut Shared::new(Vec::new(), 1)).add_forwarded(&mut head);
    assert_eq!(forwarded_for(&head), None);
}

#[test]
fn the_latency_histogram_buckets_cumulatively() {
    let mut stats = ProxyStats::default();
    stats.observe_latency(400_000);
    stats.observe_latency(4_000_000);
    let buckets = stats.latency_buckets();
    // 0.4 ms falls in the 0.0005 bucket and every one above it; 4 ms starts
    // at 0.005. Cumulative means the last bucket holds everything.
    assert_eq!(buckets[0], 0, "nothing was under 0.1 ms");
    assert_eq!(buckets[2], 1, "0.4 ms is at or under 0.5 ms");
    assert_eq!(buckets[6], 2, "both are at or under 5 ms");
    assert_eq!(buckets[LATENCY_BUCKETS.len() - 1], 2, "+Inf holds all");
    assert_eq!(stats.latency_count(), 2);
}

#[test]
fn with_no_backends_a_request_is_answered_rather_than_dropped() {
    let mut shared = Shared::new(Vec::new(), 1);
    let mut proxy = Proxy::new(1, &mut shared);
    let mut events = Vec::new();
    let placed = proxy.dispatch(
        &mut shared,
        StreamId::new(1),
        request("/"),
        true,
        0,
        &mut events,
    );
    assert!(placed.is_none());

    // A hang is the one failure a proxy must never produce, so "nothing to
    // proxy to" has to become a status.
    match &events[0] {
        ServiceEvent::Head { response, .. } => assert_eq!(response.status, 503),
        other => panic!("expected a 503, got {other:?}"),
    }
}

#[test]
fn body_octets_with_no_route_still_return_their_credit() {
    let mut shared = Shared::new(Vec::new(), 1);
    let mut proxy = Proxy::new(1, &mut shared);
    let mut events = Vec::new();
    // No dispatch, so no route: the client is still owed its window back, or
    // it would stop being able to send for the life of the connection.
    let msg = proxy.body(
        StreamId::new(1),
        Bytes::from_static(b"hello"),
        false,
        &mut events,
    );
    assert!(msg.is_none());
    let accepted = events
        .iter()
        .any(|e| matches!(e, ServiceEvent::BodyAccepted { n: 5, .. }));
    assert!(accepted, "unroutable body octets must still release credit");
}

// ---------------------------------------------------------------------
// One client's requests
// ---------------------------------------------------------------------

fn backend(port: u16) -> Backend {
    Backend::new(Address::v4(127, 0, 0, 1, port))
}

fn method(name: &'static str) -> RequestHead {
    let mut head = request("/");
    head.method = Bytes::from_static(name.as_bytes());
    head
}

/// A client of two backends.
struct Client {
    shared: Shared,
    proxy: Proxy,
    events: Vec<ServiceEvent>,
    now: u64,
}

impl Client {
    fn new() -> Client {
        let policy = Policy { eject_after: 1, ..Policy::default() };
        let mut shared = Shared::with_policy(vec![backend(1), backend(2)], 4, policy);
        let proxy = Proxy::new(9, &mut shared).with_peer("203.0.113.7".to_string());
        Client { shared, proxy, events: Vec::new(), now: 1_000_000 }
    }

    fn dispatch(&mut self, id: u32, head: RequestHead, end_stream: bool) -> Placed {
        self.proxy
            .dispatch(
                &mut self.shared,
                StreamId::new(id),
                head,
                end_stream,
                self.now,
                &mut self.events,
            )
            .expect("there are backends")
    }

    /// The connection took the message, or did not.
    fn settle(&mut self, placed: Placed, delivered: bool) {
        self.proxy.settle(
            &mut self.shared,
            placed.ticket,
            placed.lease,
            delivered,
            self.now,
            &mut self.events,
        );
    }

    fn intercept(&mut self, event: ServiceEvent) -> (Option<ServiceEvent>, Option<Placed>) {
        self.proxy.intercept(&mut self.shared, event, self.now, &mut self.events)
    }

    fn head(&mut self, id: u32, status: u16) {
        let (passed, _) = self.intercept(ServiceEvent::Head {
            id: StreamId::new(id),
            response: Response::status(status),
            end_stream: false,
        });
        assert!(passed.is_some());
    }
}

#[test]
fn a_request_goes_out_on_a_lease_and_comes_back() {
    let mut c = Client::new();
    let placed = c.dispatch(1, request("/x"), true);
    let ToUpstream::Request { head, client_id, client, end_stream, .. } = &placed.msg else {
        panic!("expected a request, got {:?}", placed.msg);
    };
    assert_eq!((client_id.get(), *client, *end_stream), (1, 9, true));
    assert_eq!(forwarded_for(head).as_deref(), Some("203.0.113.7"));
    assert!(head.fields.iter().all(|f| f.name.as_ref() != b"te"));
    let target = placed.lease.backend;
    c.settle(placed, true);
    assert_eq!(c.shared.pool.load(&[target])[0].outstanding, 1);
    assert_eq!(c.shared.stats.requests(), 1);

    c.now += 2_000_000;
    c.head(1, 200);
    c.proxy.finish(&mut c.shared, StreamId::new(1), c.now);
    assert_eq!(c.shared.pool.load(&[target])[0].outstanding, 0);
    assert_eq!(c.shared.stats.responses(2), 1);
    assert_eq!(c.shared.stats.latency_count(), 1);
    assert_eq!(c.shared.stats.latency_sum_micros(), 2_000);
    assert_eq!(c.shared.health.state(&target, c.now), State::Healthy);
}

#[test]
fn a_bodyless_request_is_tried_once_more_elsewhere() {
    let mut c = Client::new();
    let first = c.dispatch(1, request("/"), true);
    let failed = first.lease.backend;
    c.settle(first, true);
    let (passed, placed) = c.intercept(ServiceEvent::Gone { id: StreamId::new(1) });
    assert!(passed.is_none(), "the client hears nothing yet");
    let second = placed.expect("a second attempt");
    assert_ne!(second.lease.backend, failed);
    assert_eq!(c.shared.stats.retries(), 1);
    assert_eq!(c.shared.health.state(&failed, c.now), State::Ejected);
    c.settle(second, true);
    // There is no third.
    let (passed, placed) = c.intercept(ServiceEvent::Gone { id: StreamId::new(1) });
    assert!(placed.is_none());
    assert!(
        passed.is_some() || !c.events.is_empty(),
        "the client is told this time"
    );
}

#[test]
fn a_begun_answer_is_not_started_over() {
    let mut c = Client::new();
    let placed = c.dispatch(1, request("/"), true);
    c.settle(placed, true);
    c.head(1, 200);
    let (_, placed) = c.intercept(ServiceEvent::Gone { id: StreamId::new(1) });
    assert!(placed.is_none());
}

#[test]
fn a_reset_is_nobodys_failure() {
    for code in [
        ErrorCode::NoError,
        ErrorCode::ProtocolError,
        ErrorCode::InternalError,
        ErrorCode::FlowControlError,
        ErrorCode::StreamClosed,
        ErrorCode::Cancel,
        ErrorCode::EnhanceYourCalm,
    ] {
        let mut c = Client::new();
        let placed = c.dispatch(1, request("/"), true);
        let target = placed.lease.backend;
        c.settle(placed, true);
        let (passed, placed) = c.intercept(ServiceEvent::Reset { id: StreamId::new(1), code });
        assert!(placed.is_none(), "{code:?}");
        assert!(
            matches!(passed, Some(ServiceEvent::Reset { code: seen, .. }) if seen == code),
            "{code:?}"
        );
        assert_eq!(c.shared.stats.retries(), 0, "{code:?}");
        assert_eq!(c.shared.health.state(&target, c.now), State::Healthy, "{code:?}");
        assert_eq!(c.shared.health.ejections(), 0, "{code:?}");
    }
    // A refusal is sent elsewhere, and is not held against the backend either.
    let mut c = Client::new();
    let placed = c.dispatch(1, request("/"), true);
    let target = placed.lease.backend;
    c.settle(placed, true);
    let (passed, placed) = c.intercept(ServiceEvent::Reset {
        id: StreamId::new(1),
        code: ErrorCode::RefusedStream,
    });
    assert!(passed.is_none());
    assert_ne!(placed.expect("a second attempt").lease.backend, target);
    assert_eq!(c.shared.stats.retries(), 1);
    assert_eq!(c.shared.health.state(&target, c.now), State::Healthy);
}

#[test]
fn a_second_attempt_that_comes_to_nothing_ends_the_stream() {
    // The connection of the second attempt is gone.
    let mut c = Client::new();
    let first = c.dispatch(1, request("/"), true);
    c.settle(first, true);
    assert_eq!(c.shared.stats.client_streams(), 1);
    let (_, placed) = c.intercept(ServiceEvent::Gone { id: StreamId::new(1) });
    c.now += 3_000_000;
    c.settle(placed.expect("a second attempt"), false);
    assert!(
        matches!(&c.events[..], [ServiceEvent::Head { response, .. }] if response.status == 503)
    );
    assert_eq!(c.shared.stats.client_streams(), 0);
    assert_eq!(c.shared.stats.latency_count(), 1);
    assert_eq!(c.shared.stats.latency_sum_micros(), 3_000);

    // There is no backend left for the second attempt.
    let mut c = Client::new();
    let first = c.dispatch(1, request("/"), true);
    c.settle(first, true);
    c.shared.backends.clear();
    let (passed, placed) = c.intercept(ServiceEvent::Gone { id: StreamId::new(1) });
    assert!(passed.is_none() && placed.is_none());
    assert!(
        matches!(&c.events[..], [ServiceEvent::Head { response, .. }] if response.status == 503)
    );
    assert_eq!(c.shared.stats.client_streams(), 0);
    assert_eq!(c.shared.stats.latency_count(), 1);

    // A first attempt that was never delivered had opened no stream.
    let mut c = Client::new();
    let first = c.dispatch(1, request("/"), true);
    c.settle(first, false);
    assert_eq!(c.shared.stats.client_streams(), 0);
    assert_eq!(c.shared.stats.latency_count(), 0);
}

#[test]
fn what_is_shared_is_made_as_asked() {
    let policy = Policy { idle_timeout: 7_000_000_000, ..Policy::default() };
    let shared = Shared::with_policy(vec![backend(1)], 0, policy);
    assert_eq!(shared.health.policy().idle_timeout, 7_000_000_000);
    assert_eq!(shared.health.ejections(), 0);
    assert_eq!(shared.admission.ceiling, shared.tuning.max_concurrent_streams);
    assert_eq!(shared.admission_advertised(), shared.tuning.max_concurrent_streams);
}

#[test]
fn an_unsafe_method_is_not_repeated() {
    let mut c = Client::new();
    let placed = c.dispatch(1, method("POST"), true);
    c.settle(placed, true);
    let (_, placed) = c.intercept(ServiceEvent::Gone { id: StreamId::new(1) });
    assert!(placed.is_none());
    for (name, safe) in [("GET", true), ("HEAD", true), ("POST", false), ("PATCH", false)] {
        assert_eq!(is_idempotent(name.as_bytes()), safe, "{name}");
    }
}

#[test]
fn a_body_follows_its_request_and_credit_flows_back() {
    let mut c = Client::new();
    let placed = c.dispatch(1, method("POST"), false);
    let lease = placed.lease;
    c.settle(placed, true);
    let (to, msg) = c
        .proxy
        .body(StreamId::new(1), Bytes::from_static(b"abc"), true, &mut c.events)
        .expect("a route");
    assert_eq!(to, lease);
    assert!(matches!(msg, ToUpstream::Body { end_stream: true, data, .. } if data.len() == 3));
    let (to, msg) = c.proxy.released(StreamId::new(1), 10).expect("a route");
    assert_eq!(to, lease);
    assert!(matches!(msg, ToUpstream::Released { n: 10, .. }));

    c.events.clear();
    Proxy::undelivered_body(StreamId::new(1), 3, &mut c.events);
    assert!(matches!(c.events[..], [ServiceEvent::BodyAccepted { n: 3, .. }]));
}

#[test]
fn a_request_the_connection_would_not_take_is_answered() {
    let mut c = Client::new();
    let placed = c.dispatch(1, method("POST"), true);
    let target = placed.lease.backend;
    c.settle(placed, false);
    assert!(
        matches!(&c.events[0], ServiceEvent::Head { response, .. } if response.status == 503),
        "{:?}",
        c.events
    );
    assert_eq!(c.shared.pool.load(&[target])[0].outstanding, 0);
}

#[test]
fn an_answer_made_for_a_backend_does_not_vouch_for_it() {
    let mut c = Client::new();
    let placed = c.dispatch(1, request("/"), true);
    let target = placed.lease.backend;
    c.settle(placed, true);
    c.proxy.blame(&mut c.shared, StreamId::new(1), c.now);
    assert_eq!(c.shared.health.state(&target, c.now), State::Ejected);
    // The 502 in its place is passed on, not retried, and clears nothing.
    let (passed, placed) = c.intercept(ServiceEvent::Head {
        id: StreamId::new(1),
        response: Response::status(502),
        end_stream: true,
    });
    assert!(passed.is_some() && placed.is_none());
    assert_eq!(c.shared.health.state(&target, c.now), State::Ejected);
    assert_eq!(c.shared.health.ejections(), 1);
    assert_eq!(c.shared.stats.retries(), 0);

    // A 502 of its own does: the backend is there.
    let policy = Policy { eject_after: 2, ..Policy::default() };
    let mut shared = Shared::with_policy(vec![backend(1)], 4, policy);
    let proxy = Proxy::new(9, &mut shared);
    let mut c = Client { shared, proxy, events: Vec::new(), now: 1_000_000 };
    for id in [1, 3, 5] {
        let placed = c.dispatch(id, request("/"), true);
        c.settle(placed, true);
    }
    c.proxy.blame(&mut c.shared, StreamId::new(1), c.now);
    c.head(3, 502);
    c.proxy.blame(&mut c.shared, StreamId::new(5), c.now);
    assert_eq!(c.shared.health.ejections(), 0);
    // Nobody is blamed for a stream without a route.
    c.proxy.blame(&mut c.shared, StreamId::new(7), c.now);
    assert_eq!(c.shared.health.ejections(), 0);
}

#[test]
fn a_cancelled_request_is_withdrawn() {
    let mut c = Client::new();
    let placed = c.dispatch(1, request("/"), true);
    let lease = placed.lease;
    c.settle(placed, true);
    let (to, msg) = c
        .proxy
        .cancel(&mut c.shared, StreamId::new(1), ErrorCode::Cancel, c.now)
        .expect("a route");
    assert_eq!(to, lease);
    assert!(matches!(msg, ToUpstream::Cancel { code: ErrorCode::Cancel, .. }));
    assert!(c.proxy.released(StreamId::new(1), 1).is_none());
    assert_eq!(c.shared.pool.load(&[lease.backend])[0].outstanding, 0);
}

#[test]
fn a_departing_client_gives_everything_back() {
    let mut c = Client::new();
    for id in [1, 3, 5] {
        let placed = c.dispatch(id, request("/"), true);
        c.settle(placed, true);
    }
    assert_eq!(c.shared.stats.client_conns(), 1);
    assert_eq!(c.shared.stats.client_streams(), 3);
    c.proxy.disconnect(&mut c.shared, c.now);
    assert_eq!(c.shared.stats.client_conns(), 0);
    assert_eq!(c.shared.stats.client_streams(), 0);
    let out: usize = c
        .shared
        .pool
        .load(&[backend(1), backend(2)])
        .iter()
        .map(|l| l.outstanding)
        .sum();
    assert_eq!(out, 0);
}

#[test]
fn trailers_close_a_request() {
    let mut c = Client::new();
    let placed = c.dispatch(1, method("POST"), false);
    c.settle(placed, true);
    let (_, msg) = c
        .proxy
        .trailers(StreamId::new(1), Vec::new())
        .expect("a route");
    assert!(matches!(msg, ToUpstream::Trailers { .. }));
    assert!(c.proxy.trailers(StreamId::new(3), Vec::new()).is_none());
}

#[test]
fn an_event_for_nobody_is_passed_on() {
    let mut c = Client::new();
    let (passed, placed) = c.intercept(ServiceEvent::Gone { id: StreamId::new(7) });
    assert!(matches!(passed, Some(ServiceEvent::Gone { .. })));
    assert!(placed.is_none());
}

#[test]
fn admission_starts_open_and_never_leaves_its_bounds() {
    let mut a = Admission::new(256);
    assert_eq!(a.advertised, 256);
    for shed in 1..40u64 {
        let n = a.sample(1000, shed, false);
        assert!((MIN_ADMIT..=256).contains(&n));
    }
    assert_eq!(a.admit_total, u64::from(MIN_TOTAL));
    assert_eq!(a.advertised, MIN_ADMIT);
}

#[test]
fn counters_rise_fall_and_remember_their_peaks() {
    let mut s = ProxyStats::default();
    s.open_stream();
    s.open_stream();
    s.close_stream();
    s.buffer(10);
    s.unbuffer(4);
    s.open_connection();
    s.connect_attempt();
    s.connect_failure();
    s.response(204);
    s.response(503);
    s.probe_sent();
    s.probe_failure();
    assert_eq!((s.upstream_streams(), s.peak_upstream_streams()), (1, 2));
    assert_eq!((s.buffered(), s.peak_buffered()), (6, 10));
    assert_eq!((s.upstream_connections(), s.connects(), s.connect_failures()), (1, 1, 1));
    assert_eq!((s.responses(2), s.responses(5), s.responses(4)), (1, 1, 0));
    assert_eq!((s.probes(), s.probe_failures()), (1, 1));
}
