use bytes::Bytes;
use h2proxy_core::conn::ErrorCode;
use h2proxy_core::stream::StreamEvent::{
    RecvData, RecvHeaders, RecvRstStream, SendData, SendHeaders, SendRstStream,
};
use h2proxy_core::stream::StreamState::{Closed, HalfClosedLocal, HalfClosedRemote, Idle, Open};
use h2proxy_core::stream::{
    Lookup, OpenRejection, StreamId, StreamState, StreamTable, MAX_LOCAL_STREAM_ID,
};

fn stream_1() -> StreamId {
    StreamId::new(1)
}

fn stream_3() -> StreamId {
    StreamId::new(3)
}

fn table() -> StreamTable {
    StreamTable::new(2, 100, 100)
}

/// Open a stream and drive it to `state`.
fn at(state: StreamState) -> StreamState {
    state
}

// ---- the transition table (§5.1) ---------------------------------------

#[test]
fn headers_open_a_stream_from_idle() {
    assert_eq!(
        at(Idle).transition(RecvHeaders { end_stream: false }),
        Ok(Open)
    );
    assert_eq!(
        at(Idle).transition(SendHeaders { end_stream: false }),
        Ok(Open)
    );
}

#[test]
fn headers_with_end_stream_skip_open_entirely() {
    // A bodyless GET: one HEADERS frame takes the stream straight to
    // half-closed(remote).
    assert_eq!(
        at(Idle).transition(RecvHeaders { end_stream: true }),
        Ok(HalfClosedRemote)
    );
    assert_eq!(
        at(Idle).transition(SendHeaders { end_stream: true }),
        Ok(HalfClosedLocal)
    );
}

#[test]
fn anything_but_headers_on_an_idle_stream_is_a_protocol_error() {
    // Connection-scoped, not stream-scoped: the peer referenced something
    // that was never opened, so the two ends disagree about what exists.
    for event in [
        RecvData { end_stream: false },
        SendData { end_stream: false },
        RecvRstStream,
        SendRstStream,
    ] {
        assert_eq!(
            at(Idle).transition(event),
            Err(ErrorCode::ProtocolError),
            "idle + {event:?}",
        );
    }
}

#[test]
fn end_stream_half_closes_the_sender_side() {
    assert_eq!(
        at(Open).transition(RecvData { end_stream: true }),
        Ok(HalfClosedRemote)
    );
    assert_eq!(
        at(Open).transition(SendData { end_stream: true }),
        Ok(HalfClosedLocal)
    );
    assert_eq!(
        at(Open).transition(RecvData { end_stream: false }),
        Ok(Open)
    );
}

#[test]
fn a_half_closed_stream_rejects_further_frames_from_the_finished_side() {
    for event in [
        RecvHeaders { end_stream: false },
        RecvData { end_stream: false },
        RecvData { end_stream: true },
    ] {
        assert_eq!(
            at(HalfClosedRemote).transition(event),
            Err(ErrorCode::StreamClosed),
            "half-closed(remote) + {event:?}",
        );
    }
    for event in [
        SendHeaders { end_stream: false },
        SendData { end_stream: false },
        SendData { end_stream: true },
    ] {
        assert_eq!(
            at(HalfClosedLocal).transition(event),
            Err(ErrorCode::StreamClosed),
            "half-closed(local) + {event:?}",
        );
    }
}

#[test]
fn a_half_closed_stream_still_serves_the_live_side() {
    // half-closed(remote) is the normal state of a request being answered.
    assert_eq!(
        at(HalfClosedRemote).transition(SendHeaders { end_stream: false }),
        Ok(HalfClosedRemote)
    );
    assert_eq!(
        at(HalfClosedRemote).transition(SendData { end_stream: true }),
        Ok(Closed)
    );
    assert_eq!(
        at(HalfClosedLocal).transition(RecvData { end_stream: true }),
        Ok(Closed)
    );
}

#[test]
fn rst_stream_closes_from_every_live_state_and_is_idempotent() {
    for state in [Open, HalfClosedLocal, HalfClosedRemote, Closed] {
        assert_eq!(state.transition(RecvRstStream), Ok(Closed), "{state:?}");
        assert_eq!(state.transition(SendRstStream), Ok(Closed), "{state:?}");
    }
}

#[test]
fn a_closed_stream_rejects_everything_but_a_reset() {
    for event in [
        RecvHeaders { end_stream: false },
        RecvData { end_stream: false },
        SendData { end_stream: true },
    ] {
        assert_eq!(
            at(Closed).transition(event),
            Err(ErrorCode::StreamClosed),
            "closed + {event:?}",
        );
    }
}

// ---- stream id rules (§5.1.1) ------------------------------------------

#[test]
fn a_client_may_only_open_odd_streams() {
    let mut t = table();
    let err = t
        .open_peer(StreamId::new(2))
        .expect_err("even ids are server-initiated");
    assert!(matches!(err, OpenRejection::Protocol(_)));
}

#[test]
fn stream_ids_must_strictly_increase() {
    let mut t = table();
    t.open_peer(stream_3()).expect("first stream");
    for id in [StreamId::new(1), StreamId::new(3)] {
        let err = t.open_peer(id).expect_err("not above the highest seen");
        assert!(matches!(err, OpenRejection::Protocol(_)), "id {}", id.get());
    }
}

#[test]
fn a_completed_stream_id_can_never_be_reused() {
    let mut t = table();
    t.open_peer(stream_1()).expect("first stream");
    t.apply(stream_1(), RecvHeaders { end_stream: true })
        .expect("open it");
    t.apply(stream_1(), SendHeaders { end_stream: true })
        .expect("and finish it");
    assert_eq!(t.live_count(), 0, "a closed stream leaves no entry");

    let err = t.open_peer(stream_1()).expect_err("ids are never reused");
    assert!(matches!(err, OpenRejection::Protocol(_)));
}

// ---- concurrency (§5.1.2) ----------------------------------------------

#[test]
fn exceeding_max_concurrent_streams_refuses_rather_than_kills() {
    let mut t = StreamTable::new(2, 100, 100);
    for id in [1, 3] {
        t.open_peer(StreamId::new(id)).expect("inside the limit");
        t.apply(StreamId::new(id), RecvHeaders { end_stream: true })
            .expect("open");
    }
    // REFUSED_STREAM, not PROTOCOL_ERROR: the RFC reserves this code for
    // "nothing was processed, safe to retry".
    assert_eq!(
        t.open_peer(StreamId::new(5)).err(),
        Some(OpenRejection::Refused)
    );

    // Finishing one frees a slot.
    t.apply(stream_1(), SendHeaders { end_stream: true })
        .expect("close stream 1");
    t.open_peer(StreamId::new(7)).expect("a slot opened up");
}

#[test]
fn a_refused_stream_still_counts_toward_the_goaway_high_water_mark() {
    let mut t = StreamTable::new(0, 100, 100);
    assert_eq!(t.open_peer(stream_1()).err(), Some(OpenRejection::Refused));
    // We must RST_STREAM it, so GOAWAY may not later claim it was never
    // seen.
    assert_eq!(t.highest_peer_id(), stream_1());
}

// ---- lookup: idle vs closed --------------------------------------------

#[test]
fn lookup_tells_a_never_opened_stream_from_a_finished_one() {
    let mut t = table();
    t.open_peer(stream_1()).expect("open");
    t.apply(stream_1(), RecvHeaders { end_stream: true })
        .expect("live");
    assert!(matches!(t.lookup(stream_1()), Lookup::Live(_)));

    t.apply(stream_1(), SendHeaders { end_stream: true })
        .expect("finish");
    // At or below the high-water mark with no entry: closed, and frames for
    // it were probably in flight. Above it: never opened at all.
    assert!(matches!(t.lookup(stream_1()), Lookup::Closed));
    assert!(matches!(t.lookup(stream_3()), Lookup::Idle));
}

#[test]
fn a_frame_for_an_unopened_stream_is_a_connection_error() {
    let mut t = table();
    let err = t
        .apply(stream_3(), RecvData { end_stream: false })
        .expect_err("stream 3 was never opened");
    assert_eq!(err.code, ErrorCode::ProtocolError);
}

// ---- retroactive INITIAL_WINDOW_SIZE (§6.9.2) --------------------------

#[test]
fn a_settings_change_moves_every_live_streams_send_window() {
    let mut t = StreamTable::new(4, 1000, 1000);
    t.open_peer(stream_1()).expect("open");
    t.apply(stream_1(), RecvHeaders { end_stream: true })
        .expect("live");

    t.apply_initial_window_delta(-1500).expect("a decrease");
    assert_eq!(
        t.get_mut(stream_1()).expect("live").send_window.available(),
        -500,
        "a SETTINGS decrease may legally drive a window negative",
    );

    // And the new value seeds streams opened afterwards.
    t.open_peer(stream_3()).expect("open");
    assert_eq!(
        t.get_mut(stream_3()).expect("live").send_window.available(),
        -500,
    );
}

// ---- streams opened from this side -----------------------------------------

#[test]
fn local_streams_are_counted_and_limited_apart_from_the_peers() {
    let mut t = StreamTable::new(1, 100, 100);
    assert!(t.can_open_local());
    t.open_local(stream_1()).expect("the first");
    assert_eq!(t.highest_local_id(), stream_1());
    assert!(!t.can_open_local());
    assert_eq!(t.open_local(stream_3()).err(), Some(OpenRejection::Refused));

    t.set_max_concurrent(2);
    t.open_local(stream_3()).expect("the limit was raised");
    assert!(matches!(
        t.open_local(stream_3()),
        Err(OpenRejection::Protocol(_))
    ));
    t.retire(stream_1());
    assert!(!t.is_live(stream_1()));
    assert!(matches!(t.lookup(stream_1()), Lookup::Closed));
    assert!(t.lookup(StreamId::new(5)).is_idle());
    assert_eq!(MAX_LOCAL_STREAM_ID, 0x7fff_ffff);
}

#[test]
fn the_table_remembers_its_peak_and_its_total() {
    let mut t = StreamTable::new(8, 100, 100);
    for id in [1, 3, 5] {
        t.open_peer(StreamId::new(id)).expect("open");
        t.apply(StreamId::new(id), RecvHeaders { end_stream: true }).expect("live");
    }
    t.retire(stream_1());
    t.open_peer(StreamId::new(7)).expect("open");
    assert_eq!(t.live_count(), 3);
    assert_eq!(t.peak_concurrent(), 3);
    assert_eq!(t.opened(), 4);
}

#[test]
fn a_rejected_window_change_moves_no_window() {
    let mut t = StreamTable::new(4, i32::MAX - 10, 100);
    t.open_peer(stream_1()).expect("open");
    t.get_mut(stream_1()).expect("live").send_window.increase(5).expect("room");
    assert_eq!(
        t.apply_initial_window_delta(6),
        Err(ErrorCode::FlowControlError)
    );
    assert_eq!(
        t.get_mut(stream_1()).expect("live").send_window.available(),
        i32::MAX - 5
    );
}

#[test]
fn a_declared_length_is_held_against_what_arrived() {
    let mut t = table();
    let s = t.open_peer(stream_1()).expect("open");
    assert!(s.content_length_matches());
    s.content_length = Some(5);
    assert!(!s.content_length_matches());
    s.data_received = 5;
    assert!(s.content_length_matches());
    assert!(!s.has_pending_send());
    s.send_queue.push_back(Bytes::from_static(b"abc"));
    s.send_queue.push_back(Bytes::from_static(b"de"));
    assert_eq!(s.pending_send(), 5);
    assert!(s.has_pending_send());
}

#[test]
fn ids_tell_who_opened_the_stream() {
    assert!(StreamId::new(0x8000_0000).is_connection());
    assert!(StreamId::new(7).is_client_initiated());
    assert!(StreamId::new(8).is_server_initiated());
    assert!(!StreamId::connection().is_server_initiated());
}
