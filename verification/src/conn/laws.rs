//! What holds of every connection, whatever its peer sends.

use crate::conn::engine::{
    built_in, counted, lap, lemma_taken_len, BodyModel, ConnModel, ConnectionSummary, DispatchModel,
    Next, Visit, MAX_HEADER_BLOCK_BYTES,
};
use crate::conn::{settings_applied, ErrorCode, Fault};
use crate::flow::{RecvWindow, Window, SEND_BUDGET};
use crate::frame::{encoded, taken, DecodedModel, FrameModel};
use crate::hpack::HeaderModel;
use crate::sched::{lemma_marked_dom, marked, ring_without, still_live, taken_front, visit_budget};
use crate::service::{
    are_trailers, declared_length, is_request, request_of, response_headers, ResponseModel,
};
use crate::stream::{Rejection, StreamEvent, StreamModel, TableModel};
use vstd::prelude::*;

verus! {

// ---------------------------------------------------------------------------
// What every step keeps
// ---------------------------------------------------------------------------

/// `b` is `a` with octets added at the end.
pub open spec fn extends(a: Seq<u8>, b: Seq<u8>) -> bool {
    a.len() <= b.len() && b.take(a.len() as int) == a
}

/// What no step of a connection changes or breaks: the input, our own settings
/// and the concurrency limit stay; what was queued for the peer stays queued,
/// in order; the stream table stays well formed and within its limit; the ring
/// stays sound; and the highest stream id seen never falls.
pub open spec fn keeps(a: ConnModel, b: ConnModel) -> bool {
    &&& b.input == a.input
    &&& b.max_frame_size == a.max_frame_size
    &&& b.local == a.local
    &&& extends(a.output, b.output)
    &&& table_kept(a.streams, b.streams)
    &&& ring_sound(a) ==> ring_sound(b)
}

/// The ring holds live streams only, each at most once, and each knows that it
/// is in it.
pub open spec fn ring_sound(m: ConnModel) -> bool {
    &&& m.ready.no_duplicates()
    &&& forall|i: int|
        0 <= i < m.ready.len() ==> m.streams.live.contains_key(#[trigger] m.ready[i])
            && m.streams.live[m.ready[i]].queued
}

/// The part of [`keeps`] that speaks of the stream table.
pub open spec fn table_kept(a: TableModel, b: TableModel) -> bool {
    &&& b.max_concurrent == a.max_concurrent
    &&& b.highest_peer >= a.highest_peer
    &&& a.wf() ==> b.wf()
    &&& a.wf() && a.live.len() <= a.max_concurrent ==> b.live.len() <= b.max_concurrent
    &&& a.live.dom().finite() ==> b.live.dom().finite()
}

proof fn lemma_keeps_chains(a: ConnModel, b: ConnModel, c: ConnModel)
    requires
        keeps(a, b),
        keeps(b, c),
    ensures
        keeps(a, c),
{
    assert(c.output.take(a.output.len() as int) =~= b.output.take(a.output.len() as int));
}

proof fn lemma_with_keeps(t: TableModel, id: u32, s: StreamModel)
    requires
        t.live.contains_key(id),
        s.state == t.live[id].state,
    ensures
        table_kept(t, t.with(id, s)),
{
    assert(t.with(id, s).live.dom() =~= t.live.dom());
    assert(t.wf() ==> t.with(id, s).wf());
}

proof fn lemma_sends_keeps(m: ConnModel, f: FrameModel)
    ensures
        keeps(m, m.sends(f).0),
        m.sends(f).0.streams == m.streams,
        m.sends(f).0 == (ConnModel { output: m.sends(f).0.output, ..m }),
{
    reveal(ConnModel::sends);
    if let Ok(o) = encoded(f) {
        assert((m.output + o).take(m.output.len() as int) =~= m.output);
    } else {
        assert(m.output.take(m.output.len() as int) =~= m.output);
    }
}

/// Taking a stream out of the ring leaves the others as they were.
proof fn lemma_ring_without(ring: Seq<u32>, id: u32)
    ensures
        forall|i: int|
            0 <= i < ring_without(ring, id).len() ==> ring.contains(
                #[trigger] ring_without(ring, id)[i],
            ) && ring_without(ring, id)[i] != id,
        ring.no_duplicates() ==> ring_without(ring, id).no_duplicates(),
    decreases ring.len(),
{
    if ring.len() > 0 {
        let init = ring.drop_last();
        lemma_ring_without(init, id);
        let kept = ring_without(init, id);
        assert forall|i: int| 0 <= i < kept.len() implies ring.contains(#[trigger] kept[i]) by {
            let k = init.index_of(kept[i]);
            assert(ring[k] == kept[i]);
        }
        assert(ring.contains(ring[ring.len() - 1]));
        if ring.no_duplicates() {
            assert forall|i: int| 0 <= i < kept.len() implies #[trigger] kept[i]
                != ring.last() by {
                let k = init.index_of(kept[i]);
                assert(ring[k] == kept[i]);
            }
        }
    }
}

/// A stream that leaves the table leaves the ring with it.
proof fn lemma_leaves_ring(m: ConnModel, id: u32)
    ensures
        ring_sound(m) ==> ring_sound(m.without(id)),
{
    lemma_ring_without(m.ready, id);
    if ring_sound(m) {
        let n = m.without(id);
        assert forall|i: int| 0 <= i < n.ready.len() implies n.streams.live.contains_key(
            #[trigger] n.ready[i],
        ) && n.streams.live[n.ready[i]].queued by {
            let k = m.ready.index_of(n.ready[i]);
            assert(m.ready[k] == n.ready[i]);
        }
    }
}

proof fn lemma_resets_keeps(m: ConnModel, id: u32, code: ErrorCode)
    ensures
        keeps(m, m.resets(id, code).0),
{
    let b = m.without(id);
    let b = ConnModel {
        summary: ConnectionSummary {
            streams_reset: counted(b.summary.streams_reset, 1),
            ..b.summary
        },
        ..b
    };
    lemma_sends_keeps(b, FrameModel::RstStream { stream_id: id, error_code: code });
    assert(m.output.take(m.output.len() as int) =~= m.output);
    lemma_leaves_ring(m, id);
    assert(ring_sound(m) ==> ring_sound(b));
    lemma_keeps_chains(m, b, m.resets(id, code).0);
}

/// A reset leaves the other resets that are owed alone.
pub proof fn lemma_resets_pending(m: ConnModel, id: u32, code: ErrorCode)
    ensures
        m.resets(id, code).0.pending_reset == m.pending_reset,
{
    reveal(ConnModel::sends);
}

proof fn lemma_advances_keeps(m: ConnModel, id: u32, event: StreamEvent, what: Seq<char>)
    ensures
        keeps(m, m.advances(id, event, what).0),
{
    reveal(ConnModel::advances);
    assert(m.output.take(m.output.len() as int) =~= m.output);
    if m.streams.wf() {
        crate::stream::events_keep_the_table_well_formed(m.streams, id, event);
    }
    lemma_leaves_ring(m, id);
    let n = m.advances(id, event, what).0;
    if ring_sound(m) {
        assert forall|i: int| 0 <= i < n.ready.len() implies n.streams.live.contains_key(
            #[trigger] n.ready[i],
        ) && n.streams.live[n.ready[i]].queued by {
            if n.ready == m.ready {
                assert(m.streams.live.contains_key(m.ready[i]));
            } else {
                assert(n.ready == m.without(id).ready);
                assert(m.without(id).streams.live.contains_key(m.without(id).ready[i]));
            }
        }
    }
}

proof fn lemma_enqueues_keeps(m: ConnModel, id: u32)
    ensures
        keeps(m, m.enqueues(id)),
{
    assert(m.output.take(m.output.len() as int) =~= m.output);
    if m.streams.live.contains_key(id) {
        lemma_with_keeps(m.streams, id, StreamModel { queued: true, ..m.streams.live[id] });
    }
}

proof fn lemma_answers_keeps(m: ConnModel, id: u32, response: ResponseModel, body: BodyModel)
    ensures
        keeps(m, m.answers(id, response, body).0),
{
    reveal(ConnModel::answers);
    let fixed = match body {
        BodyModel::Fixed(b) => b,
        _ => Seq::empty(),
    };
    let end_stream = fixed.len() == 0 && !(body is Echo);
    let (enc, block) = m.enc.encoded(response_headers(response));
    let m0 = ConnModel { enc, ..m };
    let frame = FrameModel::Headers { stream_id: id, block, end_stream, end_headers: true };
    lemma_sends_keeps(m0, frame);
    let m1 = m0.sends(frame).0;
    if m0.sends(frame).1 is None {
        let event = StreamEvent::SendHeaders { end_stream };
        lemma_advances_keeps(m1, id, event, "response"@);
        let (m2, f) = m1.advances(id, event, "response"@);
        lemma_keeps_chains(m, m1, m2);
        if f is None && m2.streams.live.contains_key(id) {
            let s = m2.streams.live[id];
            if body is Echo {
                lemma_with_keeps(m2.streams, id, StreamModel { echoing: true, ..s });
            } else if fixed.len() > 0 {
                let s2 = StreamModel {
                    send_queue: s.send_queue.push(fixed),
                    send_end_stream: true,
                    ..s
                };
                lemma_with_keeps(m2.streams, id, s2);
                let m3 = ConnModel { streams: m2.streams.with(id, s2), ..m2 };
                lemma_enqueues_keeps(m3, id);
                assert(m2.output.take(m2.output.len() as int) =~= m2.output);
                lemma_keeps_chains(m2, m3, m3.enqueues(id));
            }
            assert(m2.output.take(m2.output.len() as int) =~= m2.output);
            lemma_keeps_chains(m, m2, m.answers(id, response, body).0);
        }
    }
}

proof fn lemma_opens_keeps(m: ConnModel, id: u32, end_stream: bool, what: Seq<char>)
    requires
        !m.streams.live.contains_key(id),
    ensures
        keeps(m, m.opens(id, end_stream, what).0),
{
    reveal(ConnModel::opens);
    let (streams, rejection) = m.streams.peer_opens(id);
    let m1 = ConnModel { streams, ..m };
    if m.streams.wf() && m.streams.live.len() <= m.streams.max_concurrent {
        crate::stream::opening_respects_the_limit(m.streams, id);
    }
    assert(m.output.take(m.output.len() as int) =~= m.output);
    assert(keeps(m, m1));
    if rejection is None {
        lemma_advances_keeps(m1, id, StreamEvent::RecvHeaders { end_stream }, what);
    } else if rejection == Some(Rejection::Refused) {
        lemma_resets_keeps(m1, id, ErrorCode::RefusedStream);
    }
    let after = m.opens(id, end_stream, what).0;
    assert(m1.output.take(m1.output.len() as int) =~= m1.output);
    lemma_keeps_chains(m, m1, after);
}

proof fn lemma_rejects_keeps(m: ConnModel, id: u32, status: u16)
    ensures
        keeps(m, m.rejects(id, status).0),
{
    reveal(ConnModel::rejects);
    assert(m.output.take(m.output.len() as int) =~= m.output);
    let response = ResponseModel { status, fields: Seq::empty() };
    if m.streams.live.contains_key(id) {
        lemma_answers_keeps(m, id, response, BodyModel::Empty);
        lemma_advances_keeps(
            m,
            id,
            StreamEvent::RecvHeaders { end_stream: true },
            "oversized request"@,
        );
    } else {
        let (m1, r) = m.opens(id, true, "oversized request"@);
        lemma_opens_keeps(m, id, true, "oversized request"@);
        lemma_answers_keeps(m1, id, response, BodyModel::Empty);
        lemma_keeps_chains(m, m1, m1.answers(id, response, BodyModel::Empty).0);
    }
}

proof fn lemma_takes_request_keeps(
    m: ConnModel,
    id: u32,
    fields: Seq<HeaderModel>,
    end_stream: bool,
)
    ensures
        keeps(m, m.takes_request(id, fields, end_stream).0),
{
    reveal(ConnModel::takes_request);
    reveal(ConnModel::takes_trailers);
    if m.streams.live.contains_key(id) {
        lemma_resets_keeps(m, id, ErrorCode::ProtocolError);
        lemma_advances_keeps(m, id, StreamEvent::RecvHeaders { end_stream }, "trailers"@);
        let m1 = m.advances(id, StreamEvent::RecvHeaders { end_stream }, "trailers"@).0;
        lemma_mirrors_keeps(m1, id, Seq::empty(), end_stream);
        lemma_keeps_chains(m, m1, m1.mirrors(id, Seq::empty(), end_stream));
    } else {
        let (m1, r) = m.opens(id, end_stream, "request"@);
        lemma_opens_keeps(m, id, end_stream, "request"@);
        if r == Ok::<bool, Fault>(true) {
            lemma_resets_keeps(m1, id, ErrorCode::ProtocolError);
            lemma_keeps_chains(m, m1, m1.resets(id, ErrorCode::ProtocolError).0);
            if is_request(fields) {
                let request = request_of(fields);
                let declared = declared_length(request);
                if let Some(Err(code)) = declared {
                    lemma_resets_keeps(m1, id, code);
                    lemma_keeps_chains(m, m1, m1.resets(id, code).0);
                } else {
                    assert(m1.output.take(m1.output.len() as int) =~= m1.output);
                    let m2 = match declared {
                        Some(Ok(n)) => if m1.streams.live.contains_key(id) {
                            let s = StreamModel {
                                content_length: Some(n),
                                ..m1.streams.live[id]
                            };
                            lemma_with_keeps(m1.streams, id, s);
                            ConnModel { streams: m1.streams.with(id, s), ..m1 }
                        } else {
                            m1
                        },
                        _ => m1,
                    };
                    assert(keeps(m1, m2));
                    lemma_keeps_chains(m, m1, m2);
                    lemma_resets_keeps(m2, id, ErrorCode::ProtocolError);
                    lemma_keeps_chains(m, m2, m2.resets(id, ErrorCode::ProtocolError).0);
                }
            }
        }
    }
}

proof fn lemma_takes_fragment_keeps(m: ConnModel, id: u32, fragment: Seq<u8>, end_headers: bool)
    ensures
        keeps(m, m.takes_fragment(id, fragment, end_headers).0),
{
    reveal(ConnModel::takes_fragment);
    assert(m.output.take(m.output.len() as int) =~= m.output);
    let (dec, r) = m.dec.decoded(m.header_block + fragment);
    let m1 = ConnModel { dec, header_block: Seq::empty(), ..m };
    let m2 = ConnModel {
        summary: ConnectionSummary {
            header_blocks_decoded: counted(m1.summary.header_blocks_decoded, 1),
            ..m1.summary
        },
        ..m1
    };
    assert(keeps(m, m2));
    match r {
        Ok(fields) => {
            lemma_takes_request_keeps(m2, id, fields, m1.open_end);
            lemma_keeps_chains(m, m2, m2.takes_request(id, fields, m1.open_end).0);
        },
        Err(_) => {
            lemma_rejects_keeps(m2, id, 431);
            lemma_keeps_chains(m, m2, m2.rejects(id, 431).0);
        },
    }
}

proof fn lemma_takes_live_data_keeps(m: ConnModel, id: u32, data: Seq<u8>, end_stream: bool)
    requires
        m.streams.live.contains_key(id),
    ensures
        keeps(m, m.takes_live_data(id, data, end_stream).0),
{
    reveal(ConnModel::takes_live_data);
    assert(m.output.take(m.output.len() as int) =~= m.output);
    let len = data.len() as u32;
    let s = StreamModel {
        data_received: counted(m.streams.live[id].data_received, len as int),
        ..m.streams.live[id]
    };
    if len > s.recv_window.window.0 {
        let m1 = ConnModel { streams: m.streams.with(id, s), ..m };
        lemma_with_keeps(m.streams, id, s);
        lemma_resets_keeps(m1, id, ErrorCode::FlowControlError);
        lemma_keeps_chains(m, m1, m1.resets(id, ErrorCode::FlowControlError).0);
    } else {
        let s = StreamModel {
            recv_window: RecvWindow {
                window: Window((s.recv_window.window.0 - len) as i32),
                ..s.recv_window
            },
            ..s
        };
        let m1 = ConnModel { streams: m.streams.with(id, s), ..m };
        lemma_with_keeps(m.streams, id, s);
        lemma_resets_keeps(m1, id, ErrorCode::ProtocolError);
        lemma_keeps_chains(m, m1, m1.resets(id, ErrorCode::ProtocolError).0);
        let event = StreamEvent::RecvData { end_stream };
        let m2 = m1.advances(id, event, "data"@).0;
        lemma_advances_keeps(m1, id, event, "data"@);
        lemma_keeps_chains(m, m1, m2);
        let m3 = m2.mirrors(id, data, end_stream);
        lemma_mirrors_keeps(m2, id, data, end_stream);
        lemma_keeps_chains(m, m2, m3);
        lemma_releases_stream_keeps(m3, id, len);
        lemma_keeps_chains(m, m3, m3.releases_stream(id, len).0);
    }
}

proof fn lemma_mirrors_keeps(m: ConnModel, id: u32, data: Seq<u8>, end_stream: bool)
    ensures
        keeps(m, m.mirrors(id, data, end_stream)),
{
    reveal(ConnModel::mirrors);
    assert(m.output.take(m.output.len() as int) =~= m.output);
    if m.streams.live.contains_key(id) && m.streams.live[id].echoing {
        let s = m.streams.live[id];
        let s2 = StreamModel {
            send_queue: if data.len() > 0 {
                s.send_queue.push(data)
            } else {
                s.send_queue
            },
            send_end_stream: s.send_end_stream || end_stream,
            ..s
        };
        let m1 = ConnModel { streams: m.streams.with(id, s2), ..m };
        lemma_with_keeps(m.streams, id, s2);
        lemma_enqueues_keeps(m1, id);
        lemma_keeps_chains(m, m1, m1.enqueues(id));
    }
}

proof fn lemma_releases_stream_keeps(m: ConnModel, id: u32, len: u32)
    ensures
        keeps(m, m.releases_stream(id, len).0),
{
    reveal(ConnModel::releases_stream);
    assert(m.output.take(m.output.len() as int) =~= m.output);
    if m.streams.live.contains_key(id) {
        let s = m.streams.live[id];
        let (recv_window, due) = s.recv_window.released(len);
        let s2 = StreamModel { recv_window, ..s };
        let m1 = ConnModel { streams: m.streams.with(id, s2), ..m };
        lemma_with_keeps(m.streams, id, s2);
        if let Some(increment) = due {
            let frame = FrameModel::WindowUpdate { stream_id: id, increment };
            lemma_sends_keeps(m1, frame);
            lemma_keeps_chains(m, m1, m1.sends(frame).0);
        }
    }
}

proof fn lemma_takes_data_keeps(m: ConnModel, id: u32, data: Seq<u8>, end_stream: bool)
    ensures
        keeps(m, m.takes_data(id, data, end_stream).0),
{
    reveal(ConnModel::takes_data);
    reveal(ConnModel::releases_conn);
    assert(m.output.take(m.output.len() as int) =~= m.output);
    let len = data.len() as u32;
    if len <= m.recv_window.window.0 {
        let m1 = ConnModel {
            recv_window: RecvWindow {
                window: Window((m.recv_window.window.0 - len) as i32),
                ..m.recv_window
            },
            ..m
        };
        let (recv_window, due) = m1.recv_window.released(len);
        let m2 = ConnModel { recv_window, ..m1 };
        if let Some(increment) = due {
            lemma_sends_keeps(m2, FrameModel::WindowUpdate { stream_id: 0, increment });
        }
        let m3 = m1.releases_conn(len).0;
        assert(keeps(m, m3));
        lemma_resets_keeps(m3, id, ErrorCode::StreamClosed);
        lemma_keeps_chains(m, m3, m3.resets(id, ErrorCode::StreamClosed).0);
        if m3.streams.live.contains_key(id) {
            lemma_takes_live_data_keeps(m3, id, data, end_stream);
            lemma_keeps_chains(m, m3, m3.takes_live_data(id, data, end_stream).0);
        }
    }
}

proof fn lemma_takes_credit_keeps(m: ConnModel, id: u32, increment: u32)
    ensures
        keeps(m, m.takes_credit(id, increment).0),
{
    reveal(ConnModel::takes_credit);
    assert(m.output.take(m.output.len() as int) =~= m.output);
    lemma_resets_keeps(m, id, ErrorCode::ProtocolError);
    lemma_resets_keeps(m, id, ErrorCode::FlowControlError);
    if m.streams.live.contains_key(id) {
        let s = m.streams.live[id];
        let s2 = StreamModel { send_window: Window((s.send_window.0 + increment) as i32), ..s };
        let m1 = ConnModel { streams: m.streams.with(id, s2), ..m };
        lemma_with_keeps(m.streams, id, s2);
        lemma_enqueues_keeps(m1, id);
        lemma_keeps_chains(m, m1, m1.enqueues(id));
    }
}

proof fn lemma_takes_settings_keeps(m: ConnModel, params: Seq<(u16, u32)>)
    ensures
        keeps(m, m.takes_settings(params).0),
{
    reveal(ConnModel::takes_settings);
    assert(m.output.take(m.output.len() as int) =~= m.output);
    let (peer, f) = settings_applied(m.peer, params);
    if f is None {
        let m1 = ConnModel { peer, ..m };
        let m1 = ConnModel { enc: m1.enc.bounded(peer.header_table_size as nat), ..m1 };
        let delta = peer.initial_window_size - m.peer.initial_window_size;
        let (streams, r) = if delta != 0 {
            m1.streams.window_moved(delta as i32)
        } else {
            (m1.streams, Ok(()))
        };
        let m2 = ConnModel { streams, ..m1 };
        assert(streams.live.dom() =~= m.streams.live.dom());
        assert(forall|id: u32| #[trigger]
            streams.live.contains_key(id) ==> streams.live[id].state == m.streams.live[id].state);
        assert(keeps(m, m2));
        let ack = FrameModel::Settings { ack: true, params: Seq::empty() };
        lemma_sends_keeps(m2, ack);
        lemma_keeps_chains(m, m2, m2.sends(ack).0);
    }
}

proof fn lemma_acts_keeps(m: ConnModel, f: FrameModel)
    ensures
        keeps(m, m.acts_on(f).0),
{
    assert(m.output.take(m.output.len() as int) =~= m.output);
    match f {
        FrameModel::Settings { ack, params } => lemma_takes_settings_keeps(m, params),
        FrameModel::Ping { data, .. } => lemma_sends_keeps(
            m,
            FrameModel::Ping { data, ack: true },
        ),
        FrameModel::GoAway { .. } => {},
        FrameModel::WindowUpdate { stream_id, increment } => lemma_takes_credit_keeps(
            m,
            stream_id,
            increment,
        ),
        FrameModel::Headers { stream_id, block, end_stream, end_headers } => {
            let m1 = ConnModel {
                open_end: if m.open_block is None {
                    end_stream
                } else {
                    m.open_end
                },
                ..m
            };
            lemma_takes_fragment_keeps(m1, stream_id, block, end_headers);
        },
        FrameModel::Continuation { stream_id, block, end_headers } => lemma_takes_fragment_keeps(
            m,
            stream_id,
            block,
            end_headers,
        ),
        FrameModel::Data { stream_id, data, end_stream } => lemma_takes_data_keeps(
            m,
            stream_id,
            data,
            end_stream,
        ),
        FrameModel::RstStream { stream_id, .. } => {
            reveal(ConnModel::takes_reset);
            lemma_leaves_ring(m, stream_id);
        },
    }
}

pub proof fn lemma_handles_keeps(m: ConnModel, f: FrameModel)
    ensures
        keeps(m, m.handles(f).0),
{
    lemma_acts_keeps(m, f);
    assert(m.output.take(m.output.len() as int) =~= m.output);
}

// ---------------------------------------------------------------------------
// Laws
// ---------------------------------------------------------------------------

/// Every step of reading keeps what [`keeps`] says, whatever the peer sends.
pub proof fn handling_a_frame_keeps_the_connection_sound(m: ConnModel, f: FrameModel)
    ensures
        keeps(m, m.handles(f).0),
{
    lemma_handles_keeps(m, f);
}

/// Answering a request keeps what [`keeps`] says.
pub proof fn answering_keeps_the_connection_sound(
    m: ConnModel,
    id: u32,
    response: ResponseModel,
    body: BodyModel,
)
    ensures
        keeps(m, m.answers(id, response, body).0),
{
    lemma_answers_keeps(m, id, response, body);
}

/// However much input is acted on, the live streams stay within the advertised
/// limit, the table stays well formed, and nothing queued for the peer is lost.
pub proof fn draining_keeps_the_connection_sound(m: ConnModel)
    ensures
        table_kept(m.streams, m.drains().0.streams),
        extends(m.output, m.drains().0.output),
        m.drains().0.local == m.local,
    decreases m.input.len(),
{
    let (r, rest) = taken(m.max_frame_size, m.input);
    let m1 = ConnModel { input: rest, ..m };
    assert(m.output.take(m.output.len() as int) =~= m.output);
    if let Ok(Some(d)) = r {
        let m2 = match d {
            DecodedModel::Ignored { .. } => m1,
            DecodedModel::Frame(f) => {
                let counted_frame = ConnModel {
                    summary: ConnectionSummary {
                        frames_received: counted(m1.summary.frames_received, 1),
                        ..m1.summary
                    },
                    ..m1
                };
                lemma_handles_keeps(counted_frame, f);
                counted_frame.handles(f).0
            },
        };
        assert(m2 == m1.takes(d).0);
        if m1.takes(d).1 == Ok::<Next, Fault>(Next::Continue) && m2.input.len() < m.input.len() {
            draining_keeps_the_connection_sound(m2);
            let end = m2.drains().0;
            assert(end.output.take(m.output.len() as int) =~= m2.output.take(
                m.output.len() as int,
            ));
        }
    }
}

/// Draining never adds input, and takes some where it hands out a request.
proof fn lemma_drains_input(m: ConnModel)
    ensures
        m.drains().0.input.len() <= m.input.len(),
        m.requests.len() == 0 && m.drains().0.requests.len() > 0 ==> m.drains().0.input.len()
            < m.input.len(),
        m.requests.len() > 0 ==> m.drains().0 == m,
        m.streams.live.dom().finite() ==> m.drains().0.streams.live.dom().finite(),
    decreases m.input.len(),
{
    let (r, rest) = taken(m.max_frame_size, m.input);
    let m1 = ConnModel { input: rest, ..m };
    if m.requests.len() == 0 {
        if let Ok(Some(d)) = r {
            let m2 = m1.takes(d).0;
            if let DecodedModel::Frame(f) = d {
                let counted_frame = ConnModel {
                    summary: ConnectionSummary {
                        frames_received: counted(m1.summary.frames_received, 1),
                        ..m1.summary
                    },
                    ..m1
                };
                lemma_handles_keeps(counted_frame, f);
            }
            if m1.takes(d).1 == Ok::<Next, Fault>(Next::Continue) && m2.input.len()
                < m.input.len() {
                lemma_drains_input(m2);
            }
        }
    }
}

proof fn lemma_answers_all_keeps(m: ConnModel, list: Seq<DispatchModel>, default_body: nat)
    ensures
        keeps(m, m.answers_all(list, default_body).0),
        m.answers_all(list, default_body).0.requests == m.requests,
    decreases list.len(),
{
    assert(m.output.take(m.output.len() as int) =~= m.output);
    if list.len() > 0 {
        lemma_answers_all_keeps(m, list.drop_last(), default_body);
        let (n, f) = m.answers_all(list.drop_last(), default_body);
        let d = list.last();
        let (response, body) = built_in(d.head, d.end_stream, default_body);
        lemma_answers_keeps(n, d.id, response, body);
        lemma_keeps_chains(m, n, n.answers(d.id, response, body).0);
        assert(n.answers(d.id, response, body).0.requests == n.requests) by {
            reveal(ConnModel::answers);
            reveal(ConnModel::advances);
            reveal(ConnModel::sends);
        }
    }
}

/// Serving ends: every round that hands out requests has taken input, or
/// answered what was waiting.
pub proof fn lemma_serves_ends(m: ConnModel, default_body: nat)
    requires
        m.streams.live.dom().finite(),
    ensures
        ({
            let (n, r) = m.drains();
            let o = ConnModel { requests: Seq::empty(), ..n }.answers_all(
                n.requests,
                default_body,
            ).0;
            &&& n.streams.live.dom().finite()
            &&& o.streams.live.dom().finite()
            &&& n.requests.len() > 0 ==> {
                ||| o.input.len() < m.input.len()
                ||| o.input.len() == m.input.len() && o.requests.len() < m.requests.len()
            }
        }),
{
    lemma_drains_input(m);
    let n = m.drains().0;
    lemma_answers_all_keeps(
        ConnModel { requests: Seq::empty(), ..n },
        n.requests,
        default_body,
    );
}

/// Once a header block is open, nothing but its own CONTINUATION gets through:
/// any other frame, one of an ignored type too, is a connection error that
/// changes nothing (§4.3).
pub proof fn nothing_interrupts_a_header_block(m: ConnModel, f: FrameModel, d: DecodedModel)
    requires
        m.open_block is Some,
        d is Ignored,
    ensures
        !(f is Continuation && Some(f.stream()) == m.open_block) ==> m.handles(f).0 == m
            && m.handles(f).1 is Err && m.handles(f).1->Err_0.code == ErrorCode::ProtocolError,
        m.takes(d).0 == m,
        m.takes(d).1 is Err && m.takes(d).1->Err_0.code == ErrorCode::ProtocolError,
{
}

/// A header block is decoded whatever becomes of its request: the dynamic table
/// moves with the encoder's even when the stream is refused, malformed or
/// oversized.
pub proof fn every_header_block_reaches_the_decoder(
    m: ConnModel,
    id: u32,
    fragment: Seq<u8>,
)
    requires
        m.header_block.len() + fragment.len() <= MAX_HEADER_BLOCK_BYTES,
    ensures
        m.takes_fragment(id, fragment, true).0.dec == m.dec.decoded(m.header_block + fragment).0,
        m.takes_fragment(id, fragment, true).0.header_block.len() == 0,
{
    reveal(ConnModel::takes_fragment);
    let (dec, r) = m.dec.decoded(m.header_block + fragment);
    let m1 = ConnModel { dec, header_block: Seq::empty(), ..m };
    let m2 = ConnModel {
        summary: ConnectionSummary {
            header_blocks_decoded: counted(m1.summary.header_blocks_decoded, 1),
            ..m1.summary
        },
        ..m1
    };
    match r {
        Ok(fields) => lemma_takes_request_dec(m2, id, fields, m1.open_end),
        Err(_) => lemma_rejects_dec(m2, id, 431),
    }
}

proof fn lemma_opens_dec(m: ConnModel, id: u32, end_stream: bool, what: Seq<char>)
    ensures
        m.opens(id, end_stream, what).0.dec == m.dec,
        m.opens(id, end_stream, what).0.header_block == m.header_block,
{
    reveal(ConnModel::opens);
    reveal(ConnModel::advances);
    reveal(ConnModel::sends);
}

proof fn lemma_rejects_dec(m: ConnModel, id: u32, status: u16)
    ensures
        m.rejects(id, status).0.dec == m.dec,
        m.rejects(id, status).0.header_block == m.header_block,
{
    reveal(ConnModel::rejects);
    reveal(ConnModel::answers);
    reveal(ConnModel::advances);
    reveal(ConnModel::sends);
    lemma_opens_dec(m, id, true, "oversized request"@);
}

proof fn lemma_takes_request_dec(
    m: ConnModel,
    id: u32,
    fields: Seq<HeaderModel>,
    end_stream: bool,
)
    ensures
        m.takes_request(id, fields, end_stream).0.dec == m.dec,
        m.takes_request(id, fields, end_stream).0.header_block == m.header_block,
{
    reveal(ConnModel::takes_request);
    reveal(ConnModel::takes_trailers);
    reveal(ConnModel::advances);
    reveal(ConnModel::mirrors);
    reveal(ConnModel::sends);
    lemma_opens_dec(m, id, end_stream, "request"@);
}

/// Once a request has ended, whatever else its client sends on the stream is a
/// STREAM_CLOSED error (§5.1): a field section is not judged as trailers, nor
/// answered for its size, nor octets judged by `content-length`.
pub proof fn a_frame_after_the_end_is_stream_closed(
    m: ConnModel,
    id: u32,
    fields: Seq<HeaderModel>,
    data: Seq<u8>,
    end_stream: bool,
)
    requires
        m.streams.live.contains_key(id),
        m.streams.live[id].state is HalfClosedRemote,
        data.len() <= u32::MAX,
        data.len() <= m.streams.live[id].recv_window.window.0,
    ensures
        ({
            let (n, f) = m.takes_request(id, fields, end_stream);
            &&& f is None
            &&& n.pending_reset == m.pending_reset.push((id, ErrorCode::StreamClosed))
            &&& !n.streams.live.contains_key(id)
            &&& n.requests == m.requests
        }),
        ({
            let (n, f) = m.takes_live_data(id, data, end_stream);
            &&& f is None
            &&& n.pending_reset == m.pending_reset.push((id, ErrorCode::StreamClosed))
            &&& !n.streams.live.contains_key(id)
            &&& n.requests == m.requests
        }),
        ({
            let (n, f) = m.rejects(id, 431);
            &&& f is None
            &&& n.pending_reset == m.pending_reset.push((id, ErrorCode::StreamClosed))
            &&& !n.streams.live.contains_key(id)
            &&& n.output == m.output
        }),
{
    reveal(ConnModel::rejects);
    reveal(ConnModel::takes_request);
    reveal(ConnModel::takes_trailers);
    reveal(ConnModel::takes_live_data);
    reveal(ConnModel::advances);
    reveal(ConnModel::mirrors);
    reveal(ConnModel::releases_stream);
}

/// A request whose body goes back as it came may end by trailers as well as by
/// DATA: either way its answer is marked to end, and the stream is in line to
/// send it.
pub proof fn a_mirrored_answer_ends_with_its_request(
    m: ConnModel,
    id: u32,
    fields: Seq<HeaderModel>,
    data: Seq<u8>,
)
    requires
        m.streams.live.contains_key(id),
        m.streams.live[id].state is Open,
        m.streams.live[id].echoing,
        data.len() <= u32::MAX,
        data.len() <= m.streams.live[id].recv_window.window.0,
    ensures
        are_trailers(fields) && !m.body_wrong(id) ==> {
            let (n, f) = m.takes_request(id, fields, true);
            &&& f is None
            &&& n.streams.live.contains_key(id)
            &&& n.streams.live[id].send_end_stream
            &&& n.streams.live[id].queued
        },
        m.streams.live[id].content_length is None || m.streams.live[id].content_length == Some(
            counted(m.streams.live[id].data_received, data.len() as int),
        ) ==> {
            let n = m.takes_live_data(id, data, true).0;
            &&& n.streams.live.contains_key(id)
            &&& n.streams.live[id].send_end_stream
            &&& n.streams.live[id].queued
        },
{
    reveal(ConnModel::takes_request);
    reveal(ConnModel::takes_trailers);
    reveal(ConnModel::takes_live_data);
    reveal(ConnModel::advances);
    reveal(ConnModel::mirrors);
    reveal(ConnModel::releases_stream);
    reveal(ConnModel::sends);
}

/// A stream error costs its stream and nothing else: the frame always goes out,
/// the stream is gone, and every other stream and both connection windows are
/// untouched.
pub proof fn a_stream_error_costs_its_stream_only(m: ConnModel, id: u32, code: ErrorCode)
    ensures
        m.resets(id, code).1 is None,
        !m.resets(id, code).0.streams.live.contains_key(id),
        m.resets(id, code).0.streams == m.streams.without(id),
        m.resets(id, code).0.send_window == m.send_window,
        m.resets(id, code).0.recv_window == m.recv_window,
        m.resets(id, code).0.output == m.output + encoded(
            FrameModel::RstStream { stream_id: id, error_code: code },
        )->Ok_0,
{
    reveal(ConnModel::sends);
    let f = FrameModel::RstStream { stream_id: id, error_code: code };
    assert(f.payload().len() == 4);
}

/// Every octet of DATA is debited and released at the connection level, also
/// where its stream is already closed or is reset for it: the peer's
/// connection credit never leaks.
pub proof fn data_is_always_accounted_to_the_connection(
    m: ConnModel,
    id: u32,
    data: Seq<u8>,
    end_stream: bool,
)
    requires
        data.len() as u32 <= m.recv_window.window.0,
        data.len() <= u32::MAX,
    ensures
        m.takes_data(id, data, end_stream).0.recv_window == (RecvWindow {
            window: Window((m.recv_window.window.0 - data.len()) as i32),
            ..m.recv_window
        }).released(data.len() as u32).0,
{
    reveal(ConnModel::takes_data);
    reveal(ConnModel::releases_conn);
    let len = data.len() as u32;
    let m1 = ConnModel {
        recv_window: RecvWindow {
            window: Window((m.recv_window.window.0 - len) as i32),
            ..m.recv_window
        },
        ..m
    };
    assert(m1.releases_conn(len).0.recv_window == m1.recv_window.released(len).0) by {
        reveal(ConnModel::sends);
    }
    let m2 = m1.releases_conn(len).0;
    assert(m2.resets(id, ErrorCode::StreamClosed).0.recv_window == m2.recv_window) by {
        reveal(ConnModel::sends);
    }
    assert(m2.takes_live_data(id, data, end_stream).0.recv_window == m2.recv_window) by {
        reveal(ConnModel::takes_live_data);
        reveal(ConnModel::mirrors);
        reveal(ConnModel::releases_stream);
        reveal(ConnModel::advances);
        reveal(ConnModel::sends);
    }
}

// ---- sending ---------------------------------------------------------------

impl ConnModel {
    /// The octets a visit to `id` writes, where it writes.
    pub open spec fn next_chunk(self, id: u32) -> Seq<u8> {
        let s = self.streams.live[id];
        taken_front(
            s.send_queue,
            visit_budget(s.send_window, self.send_window, self.peer.max_frame_size),
        ).0
    }

    /// Whether what a visit to `id` writes ends the stream.
    pub open spec fn next_ends(self, id: u32) -> bool {
        let s = self.streams.live[id];
        s.send_end_stream && taken_front(
            s.send_queue,
            visit_budget(s.send_window, self.send_window, self.peer.max_frame_size),
        ).1.len() == 0
    }
}

/// A visit never sends octets that the peer did not credit, at either level,
/// nor a frame larger than the peer or the fair share allows, and it spends
/// exactly what it sends.
pub proof fn a_visit_spends_exactly_what_it_sends(m: ConnModel, id: u32)
    requires
        m.streams.live.contains_key(id),
    ensures
        m.next_chunk(id).len() <= m.streams.live[id].send_window.spendable(),
        m.next_chunk(id).len() <= m.send_window.spendable(),
        m.next_chunk(id).len() <= m.peer.max_frame_size,
        m.next_chunk(id).len() <= SEND_BUDGET,
        m.visits(id).1 matches Ok(Visit::Wrote { .. }) ==> {
            &&& m.visits(id).0.send_window.0 == m.send_window.0 - m.next_chunk(id).len()
            &&& m.visits(id).0.output == m.output + encoded(
                FrameModel::Data {
                    stream_id: id,
                    data: m.next_chunk(id),
                    end_stream: m.next_ends(id),
                },
            )->Ok_0
            &&& m.visits(id).0.streams.live.contains_key(id)
                ==> m.visits(id).0.streams.live[id].send_window.0
                == m.streams.live[id].send_window.0 - m.next_chunk(id).len()
        },
        m.visits(id).1 matches Ok(Visit::Stalled) ==> m.visits(id).0.send_window == m.send_window
            && m.visits(id).0.output == m.output,
        m.visits(id).1 matches Ok(Visit::Finished) ==> m.visits(id).0.send_window
            == m.send_window && m.visits(id).0.output == m.output,
{
    reveal(ConnModel::visits);
    reveal(ConnModel::sends_chunk);
    reveal(ConnModel::advances);
    reveal(ConnModel::sends);
    let s = m.streams.live[id];
    let most = visit_budget(s.send_window, m.send_window, m.peer.max_frame_size);
    lemma_taken_len(s.send_queue, most);
}

/// END_STREAM goes out once: a visit that sent it leaves the stream closed from
/// our side, with nothing queued and no second ending owed.
pub proof fn a_stream_ends_once(m: ConnModel, id: u32)
    requires
        m.streams.live.contains_key(id),
        m.next_ends(id),
        m.visits(id).1 is Ok,
        !(m.visits(id).1->Ok_0 is Stalled),
    ensures
        m.visits(id).0.streams.live.contains_key(id) ==> {
            let s = m.visits(id).0.streams.live[id];
            !s.state.local_open() && !s.wants_to_send()
        },
{
    reveal(ConnModel::visits);
    reveal(ConnModel::sends_chunk);
    reveal(ConnModel::advances);
    reveal(ConnModel::sends);
}

/// A visit touches the stream it visits and no other.
pub proof fn a_visit_leaves_the_other_streams_alone(m: ConnModel, id: u32, other: u32)
    requires
        other != id,
    ensures
        m.visits(id).0.streams.live.contains_key(other) == m.streams.live.contains_key(other),
        m.visits(id).0.streams.live[other] == m.streams.live[other],
{
    reveal(ConnModel::visits);
    reveal(ConnModel::sends_chunk);
    reveal(ConnModel::advances);
    reveal(ConnModel::sends);
}

/// A stream that stalls keeps its turn: after a lap, the ring holds the stalled
/// streams first, in the order they were visited, and every stream that was
/// served behind them.
pub proof fn a_stalled_stream_keeps_its_turn(m: ConnModel)
    requires
        m.laps().fault is None,
    ensures
        m.laps().conn.ready == still_live(m.laps().conn.streams, m.laps().stalled) + still_live(
            m.laps().conn.streams,
            m.laps().served,
        ),
{
    let l = lap(ConnModel { ready: Seq::empty(), ..m }, m.ready);
    lemma_marked_dom(l.conn.streams, l.stalled + l.served);
    lemma_still_live_of(l.conn.streams, m.laps().conn.streams, l.stalled + l.served);
    lemma_still_live_splits(m.laps().conn.streams, l.stalled, l.served);
}

proof fn lemma_still_live_of(a: TableModel, b: TableModel, ring: Seq<u32>)
    requires
        a.live.dom() == b.live.dom(),
    ensures
        still_live(a, ring) == still_live(b, ring),
    decreases ring.len(),
{
    if ring.len() > 0 {
        lemma_still_live_of(a, b, ring.drop_last());
        assert(a.live.dom().contains(ring.last()) == b.live.dom().contains(ring.last()));
    }
}

proof fn lemma_still_live_splits(t: TableModel, a: Seq<u32>, b: Seq<u32>)
    ensures
        still_live(t, a + b) == still_live(t, a) + still_live(t, b),
    decreases b.len(),
{
    if b.len() == 0 {
        assert(a + b =~= a);
        assert(still_live(t, a) + still_live(t, b) =~= still_live(t, a));
    } else {
        assert((a + b).drop_last() =~= a + b.drop_last());
        lemma_still_live_splits(t, a, b.drop_last());
        assert(still_live(t, a + b) =~= still_live(t, a) + still_live(t, b));
    }
}

/// A lap puts every stream it visited into the ring at most once.
proof fn lemma_lap_members(m: ConnModel, ids: Seq<u32>)
    requires
        ids.no_duplicates(),
    ensures
        ({
            let l = lap(m, ids);
            &&& (l.stalled + l.served).no_duplicates()
            &&& forall|i: int|
                0 <= i < (l.stalled + l.served).len() ==> ids.contains(
                    #[trigger] (l.stalled + l.served)[i],
                )
        }),
    decreases ids.len(),
{
    if ids.len() > 0 {
        let init = ids.drop_last();
        let id = ids.last();
        lemma_lap_members(m, init);
        let before = lap(m, init);
        let l = lap(m, ids);
        let old_ring = before.stalled + before.served;
        let ring = l.stalled + l.served;
        assert(ids.contains(ids[ids.len() - 1]));
        assert(before.stalled.push(id).drop_last() =~= before.stalled);
        assert(before.served.push(id).drop_last() =~= before.served);
        assert forall|i: int| 0 <= i < old_ring.len() implies ids.contains(#[trigger] old_ring[i])
            && old_ring[i] != id by {
            let k = init.index_of(old_ring[i]);
            assert(ids[k] == old_ring[i]);
        }
        assert forall|i: int| 0 <= i < ring.len() implies ids.contains(#[trigger] ring[i]) by {
            if i < l.stalled.len() {
                if i < before.stalled.len() {
                    assert(ring[i] == old_ring[i]);
                }
            } else {
                let k = i - l.stalled.len();
                if k < before.served.len() {
                    assert(ring[i] == old_ring[before.stalled.len() + k]);
                }
            }
        }
        assert forall|i: int, j: int| 0 <= i < ring.len() && 0 <= j < ring.len() && i != j implies
            ring[i] != ring[j] by {
            let a = lemma_place(before.stalled, before.served, l.stalled, l.served, i);
            let b = lemma_place(before.stalled, before.served, l.stalled, l.served, j);
            if a is Some && b is Some {
                assert(old_ring[a->0] != old_ring[b->0]);
            } else if a is Some {
                assert(old_ring[a->0] != id);
            } else if b is Some {
                assert(old_ring[b->0] != id);
            }
        }
    }
}

/// Where an element of the grown ring was before: nowhere, if it is the one
/// that was added.
proof fn lemma_place(
    stalled: Seq<u32>,
    served: Seq<u32>,
    stalled2: Seq<u32>,
    served2: Seq<u32>,
    i: int,
) -> (k: Option<int>)
    requires
        0 <= i < (stalled2 + served2).len(),
        (stalled2 == stalled || (stalled2.len() == stalled.len() + 1 && stalled2.drop_last()
            == stalled && served2 == served)),
        (served2 == served || (served2.len() == served.len() + 1 && served2.drop_last() == served
            && stalled2 == stalled)),
    ensures
        match k {
            Some(k) => {
                &&& 0 <= k < (stalled + served).len()
                &&& (stalled + served)[k] == (stalled2 + served2)[i]
                &&& k == (if i < stalled.len() {
                    i
                } else {
                    i - (stalled2.len() - stalled.len())
                })
            },
            None => {
                ||| stalled2 != stalled && i == stalled.len() && (stalled2 + served2)[i]
                    == stalled2.last()
                ||| served2 != served && i == stalled2.len() + served.len() && (stalled2
                    + served2)[i] == served2.last()
            },
        },
{
    if i < stalled.len() {
        if stalled2 != stalled {
            assert(stalled2.drop_last()[i] == stalled[i]);
        }
        Some(i)
    } else if i < stalled2.len() {
        None
    } else if i - stalled2.len() < served.len() {
        let k = i - stalled2.len();
        if served2 != served {
            assert(served2.drop_last()[k] == served[k]);
        }
        Some(stalled.len() + k)
    } else {
        None
    }
}

proof fn lemma_still_live_members(t: TableModel, ring: Seq<u32>)
    ensures
        forall|i: int|
            0 <= i < still_live(t, ring).len() ==> ring.contains(#[trigger] still_live(t, ring)[i])
                && t.live.contains_key(still_live(t, ring)[i]),
        ring.no_duplicates() ==> still_live(t, ring).no_duplicates(),
    decreases ring.len(),
{
    if ring.len() > 0 {
        let init = ring.drop_last();
        lemma_still_live_members(t, init);
        let kept = still_live(t, init);
        assert(ring.contains(ring[ring.len() - 1]));
        assert forall|i: int| 0 <= i < kept.len() implies ring.contains(#[trigger] kept[i]) && (
        ring.no_duplicates() ==> kept[i] != ring.last()) by {
            let k = init.index_of(kept[i]);
            assert(ring[k] == kept[i]);
        }
    }
}

proof fn lemma_marked_members(t: TableModel, ring: Seq<u32>, id: u32)
    requires
        t.live.contains_key(id),
    ensures
        ring.contains(id) ==> marked(t, ring).live[id].queued,
        t.live[id].queued ==> marked(t, ring).live[id].queued,
    decreases ring.len(),
{
    if ring.len() > 0 {
        let init = ring.drop_last();
        lemma_marked_members(t, init, id);
        lemma_marked_dom(t, init);
        if ring.contains(id) && ring.last() != id {
            let k = ring.index_of(id);
            assert(init[k] == id);
        }
    }
}

/// A lap leaves the ring sound: every stream that is to be visited again is in
/// it once.
pub proof fn a_lap_keeps_the_ring_sound(m: ConnModel)
    requires
        ring_sound(m),
        m.laps().fault is None,
    ensures
        ring_sound(m.laps().conn),
{
    let start = ConnModel { ready: Seq::empty(), ..m };
    lemma_lap_members(start, m.ready);
    let l = lap(start, m.ready);
    let ring = l.stalled + l.served;
    let t = l.conn.streams;
    lemma_still_live_members(t, ring);
    lemma_marked_dom(t, ring);
    let n = m.laps().conn;
    assert forall|i: int| 0 <= i < n.ready.len() implies n.streams.live.contains_key(
        #[trigger] n.ready[i],
    ) && n.streams.live[n.ready[i]].queued by {
        lemma_marked_members(t, ring, n.ready[i]);
        assert(t.live.dom().contains(n.ready[i]));
    }
}

} // verus!
