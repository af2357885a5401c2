use bytes::Bytes;
use h2proxy_core::conn::ErrorCode;
use h2proxy_core::hpack::Header;
use h2proxy_core::service::{
    sized_body_request, validate_trailers, Echo, RequestHead, Response, ResponseHead, Service,
    ServiceEvent, MAX_SIZED_BODY,
};
use h2proxy_core::stream::StreamId;

fn get(headers: &[(&'static str, &'static str)]) -> Result<RequestHead, ErrorCode> {
    let list: Vec<Header> = headers
        .iter()
        .map(|(n, v)| {
            Header::new(
                Bytes::from_static(n.as_bytes()),
                Bytes::from_static(v.as_bytes()),
            )
        })
        .collect();
    RequestHead::from_headers(&list)
}

const MINIMAL: [(&str, &str); 3] = [(":method", "GET"), (":scheme", "https"), (":path", "/")];

// ---- §8.3 request validation -------------------------------------------

#[test]
fn a_minimal_request_validates() {
    let req = get(&MINIMAL).expect("well-formed");
    assert_eq!(&req.method[..], b"GET");
    assert_eq!(&req.scheme[..], b"https");
    assert_eq!(&req.path[..], b"/");
    assert!(req.authority.is_none());
    assert!(
        req.fields.is_empty(),
        "pseudo-headers are not regular fields"
    );
}

#[test]
fn every_required_pseudo_header_is_required() {
    for missing in [":method", ":scheme", ":path"] {
        let kept: Vec<_> = MINIMAL
            .iter()
            .copied()
            .filter(|(n, _)| *n != missing)
            .collect();
        assert_eq!(
            get(&kept).err(),
            Some(ErrorCode::ProtocolError),
            "a request without {missing} is malformed",
        );
    }
}

#[test]
fn pseudo_headers_must_precede_regular_fields() {
    let out_of_order = [
        (":method", "GET"),
        (":scheme", "https"),
        ("accept", "*/*"),
        (":path", "/"),
    ];
    assert_eq!(get(&out_of_order).err(), Some(ErrorCode::ProtocolError));
}

#[test]
fn unknown_and_duplicate_pseudo_headers_are_rejected() {
    let unknown = [
        (":method", "GET"),
        (":scheme", "https"),
        (":path", "/"),
        (":status", "200"),
    ];
    assert_eq!(get(&unknown).err(), Some(ErrorCode::ProtocolError));

    let duplicate = [
        (":method", "GET"),
        (":method", "POST"),
        (":scheme", "https"),
        (":path", "/"),
    ];
    assert_eq!(get(&duplicate).err(), Some(ErrorCode::ProtocolError));
}

#[test]
fn field_names_must_be_lowercase() {
    let shouty = [
        (":method", "GET"),
        (":scheme", "https"),
        (":path", "/"),
        ("Accept", "*/*"),
    ];
    assert_eq!(get(&shouty).err(), Some(ErrorCode::ProtocolError));
}

#[test]
fn connection_specific_fields_are_rejected() {
    for name in [
        "connection",
        "keep-alive",
        "proxy-connection",
        "transfer-encoding",
        "upgrade",
    ] {
        let list = [
            (":method", "GET"),
            (":scheme", "https"),
            (":path", "/"),
            (name, "x"),
        ];
        assert_eq!(
            get(&list).err(),
            Some(ErrorCode::ProtocolError),
            "{name} has no meaning in HTTP/2",
        );
    }
}

#[test]
fn te_survives_only_to_say_trailers() {
    let ok = [
        (":method", "GET"),
        (":scheme", "https"),
        (":path", "/"),
        ("te", "trailers"),
    ];
    get(&ok).expect("te: trailers is the one legal value");

    let bad = [
        (":method", "GET"),
        (":scheme", "https"),
        (":path", "/"),
        ("te", "gzip"),
    ];
    assert_eq!(get(&bad).err(), Some(ErrorCode::ProtocolError));
}

#[test]
fn an_empty_path_is_malformed() {
    let list = [(":method", "GET"), (":scheme", "https"), (":path", "")];
    assert_eq!(get(&list).err(), Some(ErrorCode::ProtocolError));
}

#[test]
fn the_authority_and_regular_fields_survive_validation() {
    let list = [
        (":method", "POST"),
        (":scheme", "https"),
        (":authority", "example.com"),
        (":path", "/upload?x=1"),
        ("content-type", "text/plain"),
    ];
    let req = get(&list).expect("well-formed");
    assert_eq!(req.authority.as_deref(), Some(&b"example.com"[..]));
    assert_eq!(req.path_only(), b"/upload");
    assert_eq!(req.fields.len(), 1);
}

// ---- §8.3 response validation ------------------------------------------

fn response_of(headers: &[(&'static str, &'static str)]) -> Result<ResponseHead, ErrorCode> {
    let list: Vec<Header> = headers
        .iter()
        .map(|(n, v)| {
            Header::new(
                Bytes::from_static(n.as_bytes()),
                Bytes::from_static(v.as_bytes()),
            )
        })
        .collect();
    ResponseHead::from_headers(&list)
}

#[test]
fn a_response_needs_exactly_one_status() {
    let head = response_of(&[(":status", "204"), ("server", "backend")]).expect("well-formed");
    assert_eq!(head.status, 204);
    assert_eq!(head.fields.len(), 1, ":status is not a regular field");

    assert_eq!(
        response_of(&[("server", "backend")]).err(),
        Some(ErrorCode::ProtocolError),
    );
    assert_eq!(
        response_of(&[(":status", "200"), (":status", "204")]).err(),
        Some(ErrorCode::ProtocolError),
    );
}

#[test]
fn a_response_rejects_request_pseudo_headers_and_late_ones() {
    assert_eq!(
        response_of(&[(":status", "200"), (":method", "GET")]).err(),
        Some(ErrorCode::ProtocolError),
    );
    assert_eq!(
        response_of(&[("server", "backend"), (":status", "200")]).err(),
        Some(ErrorCode::ProtocolError),
        "pseudo-headers may not follow a regular field",
    );
}

#[test]
fn a_response_status_must_be_a_three_digit_code() {
    for bad in ["", "OK", "20", "99", "600", "1000"] {
        assert_eq!(
            response_of(&[(":status", Box::leak(bad.to_string().into_boxed_str()))]).err(),
            Some(ErrorCode::ProtocolError),
            "status {bad:?}",
        );
    }
    assert!(
        response_of(&[(":status", "100")])
            .expect("1xx is a real response")
            .is_informational()
    );
}

#[test]
fn a_status_is_three_digits_and_nothing_else() {
    for bad in ["+200", "0200", "+20", "2e2", " 20", "2 0", "-99", "٢٠٠"] {
        assert_eq!(
            response_of(&[(":status", bad)]).err(),
            Some(ErrorCode::ProtocolError),
            "status {bad:?}",
        );
    }
    for (good, status) in [("100", 100), ("204", 204), ("599", 599)] {
        let head = response_of(&[(":status", good), ("server", "x")]).expect("a response");
        assert_eq!(head.status, status);
        assert_eq!(head.fields.len(), 1);
    }
}

#[test]
fn a_response_rejects_connection_specific_fields() {
    // The same §8.2.2 rule as requests, and the reason a proxy cannot just
    // relay whatever a careless HTTP/1 backend produced.
    assert_eq!(
        response_of(&[(":status", "200"), ("transfer-encoding", "chunked")]).err(),
        Some(ErrorCode::ProtocolError),
    );
}

// ---- forwarding a request head -----------------------------------------

#[test]
fn a_request_head_rebuilds_with_pseudo_headers_first() {
    let req = get(&[
        (":method", "POST"),
        (":scheme", "https"),
        (":authority", "example.com"),
        (":path", "/upload"),
        ("content-type", "text/plain"),
    ])
    .expect("well-formed");
    let forwarded = req.to_headers();
    let names: Vec<&[u8]> = forwarded.iter().map(|h| &h.name[..]).collect();
    assert_eq!(
        names,
        vec![
            &b":method"[..],
            &b":scheme"[..],
            &b":authority"[..],
            &b":path"[..],
            &b"content-type"[..],
        ],
    );
}

#[test]
fn forwarding_preserves_the_never_indexed_flag() {
    // The flag is the client saying "this is a secret"; dropping it on the
    // upstream leg would put a bearer token in a compression table
    // (RFC 7541 §7.1.3).
    let mut header = Header::new(
        Bytes::from_static(b"authorization"),
        Bytes::from_static(b"Bearer hunter2"),
    );
    header.sensitive = true;
    let req = RequestHead::from_headers(&[
        Header::new(Bytes::from_static(b":method"), Bytes::from_static(b"GET")),
        Header::new(Bytes::from_static(b":scheme"), Bytes::from_static(b"https")),
        Header::new(Bytes::from_static(b":path"), Bytes::from_static(b"/")),
        header,
    ])
    .expect("well-formed");
    let forwarded = req.to_headers();
    let auth = forwarded
        .iter()
        .find(|h| h.name.as_ref() == b"authorization")
        .expect("still there");
    assert!(auth.sensitive, "never-indexed must survive the round trip");
}

// ---- the built-in responder --------------------------------------------

/// Run one `Echo` exchange and collect everything it emitted.
fn echo_events(
    req: &[(&'static str, &'static str)],
    end_stream: bool,
    body: &[(&'static [u8], bool)],
) -> Vec<ServiceEvent> {
    let mut out = Vec::new();
    let mut echo = Echo::default();
    let id = StreamId::new(1);
    echo.dispatch(id, get(req).expect("well-formed"), end_stream, &mut out);
    for (chunk, end) in body {
        echo.body(id, Bytes::from_static(chunk), *end, &mut out);
    }
    out
}

#[test]
fn a_sized_path_produces_exactly_that_many_octets() {
    let events = echo_events(
        &[
            (":method", "GET"),
            (":scheme", "https"),
            (":path", "/bytes/4096"),
        ],
        true,
        &[],
    );
    let [
        ServiceEvent::Head {
            response,
            end_stream: false,
            ..
        },
        ServiceEvent::Data {
            data,
            end_stream: true,
            ..
        },
    ] = &events[..]
    else {
        panic!("expected a head then a body, got {events:?}");
    };
    assert_eq!(response.status, 200);
    assert_eq!(data.len(), 4096);
}

#[test]
fn a_sized_path_is_capped() {
    assert_eq!(
        sized_body_request(b"/bytes/999999999999"),
        Some(MAX_SIZED_BODY)
    );
    // Not a size request at all.
    assert_eq!(sized_body_request(b"/bytes/"), None);
    assert_eq!(sized_body_request(b"/bytes/abc"), None);
    assert_eq!(sized_body_request(b"/"), None);
}

#[test]
fn a_request_with_a_body_gets_it_echoed_and_its_credit_back() {
    let events = echo_events(
        &[(":method", "POST"), (":scheme", "https"), (":path", "/")],
        false,
        &[(b"hello", false), (b"", true)],
    );
    let data: Vec<&Bytes> = events
        .iter()
        .filter_map(|e| match e {
            ServiceEvent::Data { data, .. } => Some(data),
            _ => None,
        })
        .collect();
    assert_eq!(data.iter().map(|d| d.len()).sum::<usize>(), 5);
    assert!(
        events
            .iter()
            .any(|e| matches!(e, ServiceEvent::BodyAccepted { n: 5, .. })),
        "a local responder returns the credit immediately: {events:?}",
    );
    assert!(
        matches!(
            events.last(),
            Some(ServiceEvent::Data {
                end_stream: true,
                ..
            })
        ),
        "the echo has to end the stream: {events:?}",
    );
}

#[test]
fn a_bodyless_post_still_gets_a_finished_response() {
    // HEADERS without END_STREAM, and then a wait for a request body that has
    // already ended, would hang the client. A request that is over when it
    // arrives can only be answered with a complete response.
    let events = echo_events(
        &[(":method", "POST"), (":scheme", "https"), (":path", "/")],
        true,
        &[],
    );
    assert!(
        events.iter().any(|e| matches!(
            e,
            ServiceEvent::Data {
                end_stream: true,
                ..
            } | ServiceEvent::Head {
                end_stream: true,
                ..
            }
        )),
        "nothing ended the stream: {events:?}",
    );
}

#[test]
fn a_response_puts_status_before_its_fields() {
    let response = Response {
        status: 431,
        fields: vec![Header::new(
            Bytes::from_static(b"content-length"),
            Bytes::from_static(b"0"),
        )],
    };
    let headers = response.to_headers();
    assert_eq!(&headers[0].name[..], b":status");
    assert_eq!(&headers[0].value[..], b"431");
    assert_eq!(&headers[1].name[..], b"content-length");
}

#[test]
fn trailers_carry_regular_fields_only() {
    let field = |n: &'static str, v: &'static str| {
        Header::new(
            Bytes::from_static(n.as_bytes()),
            Bytes::from_static(v.as_bytes()),
        )
    };
    assert_eq!(validate_trailers(&[field("grpc-status", "0")]), Ok(()));
    for bad in [
        field(":status", "200"),
        field("Grpc-Status", "0"),
        field("connection", "close"),
        field("", "0"),
    ] {
        assert_eq!(validate_trailers(&[bad]), Err(ErrorCode::ProtocolError));
    }
}

#[test]
fn a_declared_length_must_parse() {
    let with = |v: &'static str| {
        get(&[
            (":method", "POST"),
            (":scheme", "https"),
            (":path", "/"),
            ("content-length", v),
        ])
        .expect("well-formed")
        .content_length()
    };
    assert_eq!(with("42"), Some(Ok(42)));
    assert_eq!(with("18446744073709551615"), Some(Ok(u64::MAX)));
    assert_eq!(with("18446744073709551616"), Some(Err(ErrorCode::ProtocolError)));
    assert_eq!(with("-1"), Some(Err(ErrorCode::ProtocolError)));
    assert_eq!(get(&MINIMAL).expect("well-formed").content_length(), None);
}

#[test]
fn a_cancelled_echo_says_no_more() {
    let mut out = Vec::new();
    let mut echo = Echo::new(3);
    let id = StreamId::new(1);
    let post = [(":method", "POST"), (":scheme", "https"), (":path", "/")];
    echo.dispatch(id, get(&post).expect("well-formed"), false, &mut out);
    echo.cancel(id, ErrorCode::Cancel);
    out.clear();
    echo.body(id, Bytes::from_static(b"late"), true, &mut out);
    assert!(
        matches!(out[..], [ServiceEvent::BodyAccepted { n: 4, .. }]),
        "only the credit comes back: {out:?}"
    );
}

#[test]
fn an_echo_ends_when_its_request_ends_by_trailers() {
    let mut out = Vec::new();
    let mut echo = Echo::new(3);
    let id = StreamId::new(1);
    let post = [(":method", "POST"), (":scheme", "https"), (":path", "/")];
    echo.dispatch(id, get(&post).expect("well-formed"), false, &mut out);
    echo.body(id, Bytes::from_static(b"abc"), false, &mut out);
    out.clear();
    echo.trailers(id, Vec::new(), &mut out);
    assert!(
        matches!(&out[..], [ServiceEvent::Data { data, end_stream: true, .. }] if data.is_empty()),
        "{out:?}"
    );
    assert!(echo.echoing.is_empty());
    // Trailers of a request that is not mirrored end nothing.
    out.clear();
    echo.trailers(StreamId::new(3), Vec::new(), &mut out);
    assert!(out.is_empty());
}

#[test]
fn a_sized_path_is_read_without_its_query() {
    let events = echo_events(
        &[
            (":method", "GET"),
            (":scheme", "https"),
            (":path", "/bytes/0?x=1"),
        ],
        true,
        &[],
    );
    let [ServiceEvent::Head { response, end_stream: true, .. }] = &events[..] else {
        panic!("expected a lone head, got {events:?}");
    };
    assert_eq!(&response.fields[0].name[..], b"content-length");
    assert_eq!(&response.fields[0].value[..], b"0");
}
