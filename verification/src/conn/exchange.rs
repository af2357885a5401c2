//! What each frame of a client, and each answer to it, is for.
//!
//! The steps of the connection are stated one by one elsewhere; these laws say
//! what they come to, for whoever is at the other end: that credit given can be
//! used, that settings are obeyed, that a request is handed out as it came, and
//! its answer goes out as it was given.

use crate::conn::engine::{
    built_in, counted, lap, lemma_laps_use_work, BodyModel, ConnModel, ConnectionSummary,
    DispatchModel, Next, Preface, MAX_HEADER_BLOCK_BYTES, PREFACE,
};
use crate::conn::laws::{lemma_handles_keeps, lemma_serves_ends};
use crate::conn::{advertised, lemma_window_setting, settings_applied, ErrorCode, Fault};
use crate::flow::{RecvWindow, Window, CONNECTION_WINDOW};
use crate::frame::{encoded, taken, DecodedModel, FrameError, FrameModel};
use crate::hpack::{
    encode_then_decode_is_identity, in_step, lengths_fit, list_cost, DecoderModel, HeaderModel,
    HpackFault,
};
use crate::sched::{
    leaving_the_ring_moves_no_other_stream, rebuilding_the_ring_keeps_the_living,
};
use crate::service::{
    declared_length, is_request, is_response, no_pseudo, regular_name, request_of,
    response_headers, response_of, responses_round_trip, EchoModel, EventModel, RequestModel,
    ResponseModel,
};
use crate::stream::{StreamModel, StreamState};
use vstd::prelude::*;
use vstd::utf8::encode_utf8;

verus! {

/// Credit is honoured. A WINDOW_UPDATE for a live stream makes its send window
/// larger by exactly the increment, touches no other window, and puts the stream
/// in line where it has octets to send; one for the connection does the same for
/// the connection's. Nothing else changes.
pub proof fn credit_is_honoured(m: ConnModel, id: u32, increment: u32, other: u32)
    requires
        m.open_block is None,
        increment > 0,
    ensures
        ({
            let (n, f) = m.handles(FrameModel::WindowUpdate { stream_id: id, increment });
            let s = m.streams.live[id];
            let t = n.streams.live[id];
            id != 0 && m.streams.live.contains_key(id) && s.send_window.0 + increment
                <= 0x7fff_ffff ==> {
                &&& f == Ok::<Next, Fault>(Next::Continue)
                &&& n.streams.live.contains_key(id)
                &&& t.send_window.0 == s.send_window.0 + increment
                &&& t == (StreamModel { send_window: t.send_window, queued: t.queued, ..s })
                &&& s.send_queue.len() > 0 || s.send_end_stream ==> t.queued && (s.queued
                    || n.ready == m.ready.push(id))
                &&& s.queued ==> t.queued && n.ready == m.ready
                &&& other != id ==> n.streams.live.contains_key(other)
                    == m.streams.live.contains_key(other) && n.streams.live[other]
                    == m.streams.live[other]
                &&& n.send_window == m.send_window
                &&& n == (ConnModel { streams: n.streams, ready: n.ready, ..m })
            }
        }),
        ({
            let (n, f) = m.handles(FrameModel::WindowUpdate { stream_id: 0, increment });
            m.send_window.0 + increment <= 0x7fff_ffff ==> {
                &&& f == Ok::<Next, Fault>(Next::Continue)
                &&& n.send_window.0 == m.send_window.0 + increment
                &&& n == (ConnModel { send_window: n.send_window, ..m })
            }
        }),
{
    reveal(ConnModel::takes_credit);
}

/// Credit past the largest window there is, and credit of nothing, end what they
/// were for: the stream, with a reset that names the fault, or the connection.
/// Credit for a stream that is over is late, for one that never was a fault.
pub proof fn credit_past_the_largest_window_is_a_fault(m: ConnModel, id: u32, increment: u32)
    requires
        m.open_block is None,
    ensures
        m.send_window.0 + increment > 0x7fff_ffff ==> ({
            let (n, f) = m.handles(FrameModel::WindowUpdate { stream_id: 0, increment });
            n == m && f is Err && f->Err_0.code == ErrorCode::FlowControlError
        }),
        ({
            let (n, f) = m.handles(FrameModel::WindowUpdate { stream_id: 0, increment: 0 });
            n == m && f is Err && f->Err_0.code == ErrorCode::ProtocolError
        }),
        id != 0 && m.streams.live.contains_key(id) && (increment == 0
            || m.streams.live[id].send_window.0 + increment > 0x7fff_ffff) ==> ({
            let (n, f) = m.handles(FrameModel::WindowUpdate { stream_id: id, increment });
            &&& f == Ok::<Next, Fault>(Next::Continue)
            &&& n.streams == m.streams.without(id)
            &&& n.output == m.output + encoded(
                FrameModel::RstStream {
                    stream_id: id,
                    error_code: if increment == 0 {
                        ErrorCode::ProtocolError
                    } else {
                        ErrorCode::FlowControlError
                    },
                },
            )->Ok_0
        }),
        id != 0 && increment > 0 && !m.streams.live.contains_key(id) ==> ({
            let (n, f) = m.handles(FrameModel::WindowUpdate { stream_id: id, increment });
            n == m && (f is Err <==> !(id <= m.streams.highest_local || id
                <= m.streams.highest_peer))
        }),
{
    reveal(ConnModel::takes_credit);
    reveal(ConnModel::sends);
}

/// Settings are obeyed: every live stream's send window moves by as much as the
/// initial window did, streams that are yet to come start from the new one, the
/// compressor keeps to the table it was given, and the settings are acknowledged.
pub proof fn settings_are_obeyed(m: ConnModel, params: Seq<(u16, u32)>, id: u32)
    requires
        m.open_block is None,
        m.peer.initial_window_size <= 0x7fff_ffff,
        m.handles(FrameModel::Settings { ack: false, params }).1 is Ok,
    ensures
        ({
            let n = m.handles(FrameModel::Settings { ack: false, params }).0;
            let delta = n.peer.initial_window_size - m.peer.initial_window_size;
            &&& n.peer == settings_applied(m.peer, params).0
            &&& n.streams.live.contains_key(id) == m.streams.live.contains_key(id)
            &&& m.streams.live.contains_key(id) && m.streams.live[id].send_window.0 + delta
                >= i32::MIN ==> n.streams.live[id] == (StreamModel {
                send_window: Window((m.streams.live[id].send_window.0 + delta) as i32),
                ..m.streams.live[id]
            })
            &&& i32::MIN <= m.streams.initial_send_window + delta <= i32::MAX
                ==> n.streams.initial_send_window == m.streams.initial_send_window + delta
            &&& n.send_window == m.send_window
            &&& n.streams.max_concurrent == m.streams.max_concurrent
            &&& n.enc.table.max_size == n.peer.header_table_size
            &&& n.summary.handshake_completed
            &&& n.output == m.output + encoded(
                FrameModel::Settings { ack: true, params: Seq::empty() },
            )->Ok_0
        }),
{
    reveal(ConnModel::takes_settings);
    reveal(ConnModel::sends);
    lemma_window_setting(m.peer, params);
}

/// An acknowledgement asks for nothing, a PING is answered with what it carried,
/// and a GOAWAY ends the connection without a word.
pub proof fn a_ping_is_answered_with_what_it_carried(
    m: ConnModel,
    data: Seq<u8>,
    params: Seq<(u16, u32)>,
    last: u32,
    code: ErrorCode,
)
    requires
        m.open_block is None,
        data.len() == 8,
    ensures
        ({
            let (n, f) = m.handles(FrameModel::Ping { data, ack: false });
            &&& f == Ok::<Next, Fault>(Next::Continue)
            &&& n.output == m.output + encoded(FrameModel::Ping { data, ack: true })->Ok_0
            &&& n == (ConnModel { output: n.output, ..m })
        }),
        m.handles(FrameModel::Ping { data, ack: true }) == (m, Ok::<Next, Fault>(Next::Continue)),
        m.handles(FrameModel::Settings { ack: true, params }) == (
            m,
            Ok::<Next, Fault>(Next::Continue),
        ),
        m.handles(
            FrameModel::GoAway { last_stream_id: last, error_code: code, debug_data: data },
        ) == (m, Ok::<Next, Fault>(Next::Close)),
{
    reveal(ConnModel::sends);
}

/// A stream that its client resets is gone, out of the ring too, and nothing is
/// said about it; every other stream stays as it was.
pub proof fn a_reset_ends_its_stream_only(m: ConnModel, id: u32, code: ErrorCode)
    requires
        m.open_block is None,
        m.streams.live.contains_key(id),
    ensures
        ({
            let (n, f) = m.handles(FrameModel::RstStream { stream_id: id, error_code: code });
            &&& f == Ok::<Next, Fault>(Next::Continue)
            &&& n.streams.live == m.streams.live.remove(id)
            &&& n.ready == m.ready.filter(|k: u32| k != id)
            &&& n.output == m.output && n.pending_reset == m.pending_reset && n.requests
                == m.requests
            &&& n.send_window == m.send_window && n.recv_window == m.recv_window
        }),
{
    reveal(ConnModel::takes_reset);
    crate::sched::leaving_the_ring_moves_no_other_stream(m.ready, id);
}

/// A request is handed out as it came: under its stream's id, with the head its
/// fields say, and its end if it has one; the stream is open for its body and its
/// answer, with the windows a stream starts with.
pub proof fn a_request_is_handed_out_as_it_came(
    m: ConnModel,
    id: u32,
    block: Seq<u8>,
    fields: Seq<HeaderModel>,
    end_stream: bool,
)
    requires
        m.open_block is None,
        m.header_block.len() == 0,
        block.len() <= MAX_HEADER_BLOCK_BYTES,
        m.dec.decoded(block).1 == Ok::<Seq<HeaderModel>, HpackFault>(fields),
        !m.streams.live.contains_key(id),
        id % 2 == 1,
        id > m.streams.highest_peer,
        m.streams.live.len() < m.streams.max_concurrent,
        is_request(fields),
        declared_length(request_of(fields)) is None || declared_length(request_of(fields)) == Some(
            Ok::<u64, ErrorCode>(0),
        ) || (!end_stream && declared_length(request_of(fields))->0 is Ok),
    ensures
        ({
            let (n, f) = m.handles(
                FrameModel::Headers { stream_id: id, block, end_stream, end_headers: true },
            );
            &&& f == Ok::<Next, Fault>(Next::Continue)
            &&& n.requests == m.requests.push(
                DispatchModel { id, head: request_of(fields), end_stream },
            )
            &&& n.streams.live.contains_key(id)
            &&& n.streams.live[id].state == if end_stream {
                StreamState::HalfClosedRemote
            } else {
                StreamState::Open
            }
            &&& n.streams.live[id].send_window.0 == m.streams.initial_send_window
            &&& n.streams.live[id].recv_window.window.0 == m.streams.initial_recv_window
            &&& n.streams.live[id].send_queue.len() == 0
            &&& n.streams.live.remove(id) == m.streams.live
            &&& n.streams.highest_peer == id
            &&& n.output == m.output
        }),
{
    reveal(ConnModel::takes_fragment);
    reveal(ConnModel::takes_request);
    reveal(ConnModel::opens);
    reveal(ConnModel::advances);
    assert(m.header_block + block =~= block);
    let n = m.handles(
        FrameModel::Headers { stream_id: id, block, end_stream, end_headers: true },
    ).0;
    assert(n.streams.live.remove(id) =~= m.streams.live);
}

/// A client that opens more streams than it may has the stream refused, and hears
/// that nothing was processed; a request that is malformed costs its stream; and
/// neither is handed out.
pub proof fn a_request_too_many_is_refused(
    m: ConnModel,
    id: u32,
    block: Seq<u8>,
    fields: Seq<HeaderModel>,
    end_stream: bool,
)
    requires
        m.open_block is None,
        m.header_block.len() == 0,
        block.len() <= MAX_HEADER_BLOCK_BYTES,
        m.dec.decoded(block).1 == Ok::<Seq<HeaderModel>, HpackFault>(fields),
        !m.streams.live.contains_key(id),
        id % 2 == 1,
        id > m.streams.highest_peer,
    ensures
        ({
            let full = m.streams.live.len() >= m.streams.max_concurrent;
            let (n, f) = m.handles(
                FrameModel::Headers { stream_id: id, block, end_stream, end_headers: true },
            );
            full || !is_request(fields) ==> {
                &&& f == Ok::<Next, Fault>(Next::Continue)
                &&& n.requests == m.requests
                &&& n.streams.live == m.streams.live
                &&& n.streams.highest_peer == id
                &&& n.output == m.output + encoded(
                    FrameModel::RstStream {
                        stream_id: id,
                        error_code: if full {
                            ErrorCode::RefusedStream
                        } else {
                            ErrorCode::ProtocolError
                        },
                    },
                )->Ok_0
            }
        }),
{
    reveal(ConnModel::takes_fragment);
    reveal(ConnModel::takes_request);
    reveal(ConnModel::opens);
    reveal(ConnModel::advances);
    reveal(ConnModel::sends);
    assert(m.header_block + block =~= block);
    let n = m.handles(
        FrameModel::Headers { stream_id: id, block, end_stream, end_headers: true },
    ).0;
    if m.streams.live.len() >= m.streams.max_concurrent || !is_request(fields) {
        assert(n.streams.live =~= m.streams.live);
    }
}

/// An id that a client may not use ends the connection: an even one, and one that
/// is not above every one before it.
pub proof fn a_stream_id_out_of_order_is_a_fault(
    m: ConnModel,
    id: u32,
    block: Seq<u8>,
    end_stream: bool,
)
    requires
        m.open_block is None,
        m.header_block.len() == 0,
        block.len() <= MAX_HEADER_BLOCK_BYTES,
        m.dec.decoded(block).1 is Ok,
        !m.streams.live.contains_key(id),
        id % 2 == 0 || id <= m.streams.highest_peer,
    ensures
        ({
            let (n, f) = m.handles(
                FrameModel::Headers { stream_id: id, block, end_stream, end_headers: true },
            );
            &&& f is Err && f->Err_0.code == ErrorCode::ProtocolError
            &&& n.requests == m.requests && n.streams == m.streams && n.output == m.output
        }),
{
    reveal(ConnModel::takes_fragment);
    reveal(ConnModel::takes_request);
    reveal(ConnModel::opens);
    assert(m.header_block + block =~= block);
}

/// A header block says the same in however many frames it comes.
pub proof fn a_header_block_may_come_in_pieces(
    m: ConnModel,
    id: u32,
    first: Seq<u8>,
    rest: Seq<u8>,
    end_stream: bool,
)
    requires
        m.open_block is None,
        m.header_block.len() == 0,
        first.len() + rest.len() <= MAX_HEADER_BLOCK_BYTES,
    ensures
        ({
            let (a, f) = m.handles(
                FrameModel::Headers { stream_id: id, block: first, end_stream, end_headers: false },
            );
            &&& f == Ok::<Next, Fault>(Next::Continue)
            &&& a == (ConnModel {
                header_block: first,
                open_block: Some(id),
                open_end: end_stream,
                ..m
            })
            &&& a.acts_on(
                FrameModel::Continuation { stream_id: id, block: rest, end_headers: true },
            ) == (ConnModel { header_block: Seq::empty(), ..a }).acts_on(
                FrameModel::Continuation {
                    stream_id: id,
                    block: first + rest,
                    end_headers: true,
                },
            )
            &&& (ConnModel { header_block: Seq::empty(), open_block: None, ..a }).acts_on(
                FrameModel::Continuation {
                    stream_id: id,
                    block: first + rest,
                    end_headers: true,
                },
            ) == m.acts_on(
                FrameModel::Headers {
                    stream_id: id,
                    block: first + rest,
                    end_stream,
                    end_headers: true,
                },
            )
        }),
{
    reveal(ConnModel::takes_fragment);
    let a = m.handles(
        FrameModel::Headers { stream_id: id, block: first, end_stream, end_headers: false },
    ).0;
    assert(m.header_block + first =~= first);
    assert(a.header_block + rest =~= Seq::<u8>::empty() + (first + rest));
    assert(m.header_block =~= Seq::empty());
}

/// Body octets within both windows are accounted at both levels; where the stream
/// mirrors its request they are queued to go back behind what is queued, with
/// their end if they have one.
#[verifier::spinoff_prover]
#[verifier::rlimit(50)]
pub proof fn mirrored_octets_are_queued_in_order(
    m: ConnModel,
    id: u32,
    data: Seq<u8>,
    end_stream: bool,
)
    requires
        m.open_block is None,
        m.streams.live.contains_key(id),
        m.streams.live[id].state is Open,
        m.streams.live[id].content_length is None,
        data.len() <= m.recv_window.window.0,
        data.len() <= m.streams.live[id].recv_window.window.0,
    ensures
        ({
            let (n, f) = m.handles(FrameModel::Data { stream_id: id, data, end_stream });
            let s = m.streams.live[id];
            let t = n.streams.live[id];
            &&& f == Ok::<Next, Fault>(Next::Continue)
            &&& n.streams.live.contains_key(id)
            &&& t.state == if end_stream {
                StreamState::HalfClosedRemote
            } else {
                StreamState::Open
            }
            &&& s.echoing ==> t.send_queue.flatten() == s.send_queue.flatten() + data
            &&& s.echoing ==> t.send_end_stream == (s.send_end_stream || end_stream)
            &&& s.echoing && (data.len() > 0 || end_stream) ==> t.queued && (s.queued || n.ready
                == m.ready.push(id))
            &&& !s.echoing ==> t.send_queue == s.send_queue && t.send_end_stream
                == s.send_end_stream && n.ready == m.ready
            &&& n.streams.live.remove(id) == m.streams.live.remove(id)
            &&& n.recv_window == (RecvWindow {
                window: Window((m.recv_window.window.0 - data.len()) as i32),
                ..m.recv_window
            }).released(data.len() as u32).0
            &&& t.recv_window == (RecvWindow {
                window: Window((s.recv_window.window.0 - data.len()) as i32),
                ..s.recv_window
            }).released(data.len() as u32).0
            &&& n.send_window == m.send_window && t.send_window == s.send_window
        }),
{
    reveal(ConnModel::takes_data);
    reveal(ConnModel::releases_conn);
    reveal(ConnModel::takes_live_data);
    reveal(ConnModel::advances);
    reveal(ConnModel::mirrors);
    reveal(ConnModel::releases_stream);
    reveal(ConnModel::sends);
    let s = m.streams.live[id];
    s.send_queue.lemma_flatten_push(data);
    let n = m.handles(FrameModel::Data { stream_id: id, data, end_stream }).0;
    assert(data.len() == 0 ==> s.send_queue.flatten() + data =~= s.send_queue.flatten());
    assert(n.streams.live.remove(id) =~= m.streams.live.remove(id));
}

/// Octets past a window end what they were for: past the connection's, the
/// connection; past a stream's, the stream.
pub proof fn octets_past_a_window_are_a_fault(
    m: ConnModel,
    id: u32,
    data: Seq<u8>,
    end_stream: bool,
)
    requires
        m.open_block is None,
        data.len() <= u32::MAX,
    ensures
        data.len() > m.recv_window.window.0 ==> ({
            let (n, f) = m.handles(FrameModel::Data { stream_id: id, data, end_stream });
            n == m && f is Err && f->Err_0.code == ErrorCode::FlowControlError
        }),
        data.len() <= m.recv_window.window.0 && m.streams.live.contains_key(id) && data.len()
            > m.streams.live[id].recv_window.window.0 ==> ({
            let (n, f) = m.handles(FrameModel::Data { stream_id: id, data, end_stream });
            let reset = encoded(
                FrameModel::RstStream { stream_id: id, error_code: ErrorCode::FlowControlError },
            )->Ok_0;
            &&& f == Ok::<Next, Fault>(Next::Continue)
            &&& n.streams.live == m.streams.live.remove(id)
            &&& n.output.len() >= reset.len()
            &&& n.output.skip(n.output.len() - reset.len()) == reset
        }),
{
    reveal(ConnModel::takes_data);
    reveal(ConnModel::releases_conn);
    reveal(ConnModel::takes_live_data);
    reveal(ConnModel::sends);
    let n = m.handles(FrameModel::Data { stream_id: id, data, end_stream }).0;
    let reset = encoded(
        FrameModel::RstStream { stream_id: id, error_code: ErrorCode::FlowControlError },
    )->Ok_0;
    if data.len() <= m.recv_window.window.0 && m.streams.live.contains_key(id) && data.len()
        > m.streams.live[id].recv_window.window.0 {
        assert(n.streams.live =~= m.streams.live.remove(id));
        assert(n.output.skip(n.output.len() - reset.len()) =~= reset);
    }
}

/// One field section went out in between, whole and in one frame.
pub open spec fn headers_went(
    before: Seq<u8>,
    after: Seq<u8>,
    id: u32,
    block: Seq<u8>,
    end_stream: bool,
) -> bool {
    after == before + encoded(
        FrameModel::Headers { stream_id: id, block, end_stream, end_headers: true },
    )->Ok_0
}

/// What went out in between is one HEADERS, out of which the decoder reads the
/// very response.
pub open spec fn response_went(
    before: Seq<u8>,
    after: Seq<u8>,
    id: u32,
    d: DecoderModel,
    response: ResponseModel,
    end_stream: bool,
) -> bool {
    exists|block: Seq<u8>| #[trigger]
        headers_went(before, after, id, block, end_stream) && (d.decoded(block).1 matches Ok(fields)
            && is_response(fields) && response_of(fields) == response)
}

/// An answer goes out as it was given: a decoder in step reads the very response
/// out of its HEADERS, and its body is queued behind what is queued, to be ended
/// with; a mirrored one is yet to come, and an empty one ends at once.
pub proof fn an_answer_goes_out_as_it_was_given(
    m: ConnModel,
    d: DecoderModel,
    id: u32,
    response: ResponseModel,
    body: BodyModel,
)
    requires
        m.streams.live.contains_key(id),
        m.streams.live[id].state.local_open(),
        in_step(m.enc, d),
        m.enc.table.wf(),
        m.enc.table.max_size <= u32::MAX,
        100 <= response.status <= 599,
        no_pseudo(response.fields),
        forall|i: int|
            0 <= i < response.fields.len() ==> regular_name((#[trigger] response.fields[i]).name),
        lengths_fit(response_headers(response), m.enc.huffman),
        d.limit is None || list_cost(response_headers(response)) <= d.limit->0,
        m.answers(id, response, body).1 is None,
    ensures
        ({
            let n = m.answers(id, response, body).0;
            let ends = body is Empty || (body is Fixed && body->Fixed_0.len() == 0);
            response_went(m.output, n.output, id, d, response, ends)
        }),
        ({
            let n = m.answers(id, response, body).0;
            let s = m.streams.live[id];
            let t = n.streams.live[id];
            let ends = body is Empty || (body is Fixed && body->Fixed_0.len() == 0);
            &&& !ends ==> n.streams.live.contains_key(id)
            &&& body matches BodyModel::Fixed(octets) ==> octets.len() > 0 ==> {
                &&& t.send_queue.flatten() == s.send_queue.flatten() + octets
                &&& t.send_end_stream
                &&& t.queued && (s.queued || n.ready == m.ready.push(id))
            }
            &&& body is Echo ==> t == (StreamModel { echoing: true, state: t.state, ..s })
            &&& n.streams.live.remove(id) == m.streams.live.remove(id)
            &&& n.send_window == m.send_window
        }),
{
    reveal(ConnModel::answers);
    reveal(ConnModel::advances);
    reveal(ConnModel::sends);
    responses_round_trip(response);
    encode_then_decode_is_identity(m.enc, d, response_headers(response));
    let block = m.enc.encoded(response_headers(response)).1;
    let ends = body is Empty || (body is Fixed && body->Fixed_0.len() == 0);
    let n = m.answers(id, response, body).0;
    assert(headers_went(m.output, n.output, id, block, ends) && (d.decoded(
        block,
    ).1 matches Ok(fields) && is_response(fields) && response_of(fields) == response));
    if let BodyModel::Fixed(octets) = body {
        m.streams.live[id].send_queue.lemma_flatten_push(octets);
    }
    assert(n.streams.live.remove(id) =~= m.streams.live.remove(id));
}

/// The connection opens with our settings and the credit that lifts the default
/// window to ours.
pub proof fn the_opening_says_our_settings(m: ConnModel)
    ensures
        ({
            let (n, f) = m.starts();
            &&& f is None
            &&& n.output == m.output + encoded(
                FrameModel::Settings { ack: false, params: advertised(m.local) },
            )->Ok_0 + encoded(
                FrameModel::WindowUpdate {
                    stream_id: 0,
                    increment: (CONNECTION_WINDOW - 65_535) as u32,
                },
            )->Ok_0
            &&& n == (ConnModel { output: n.output, ..m })
        }),
{
    reveal(ConnModel::sends);
    let params = advertised(m.local);
    crate::frame::lemma_param_octets(params);
    crate::flow::bootstrap_lifts_the_default_to_the_connection_window();
}

/// The preface is accepted when the input starts with it, and taken off the
/// input; with less of it there the client may still be sending; anything else is
/// no client of ours. What follows it stays.
pub proof fn the_preface_is_taken_off_the_input(m: ConnModel, rest: Seq<u8>)
    ensures
        ({
            let preface = encode_utf8(PREFACE@);
            let greeting = ConnModel { input: preface + rest, ..m };
            &&& greeting.greeted() == (ConnModel { input: rest, ..m }, Preface::Accepted)
            &&& m.greeted().1 is Accepted <==> preface.is_prefix_of(m.input)
            &&& m.input.len() < preface.len() ==> m.greeted() == (m, Preface::Incomplete)
            &&& m.greeted().1 is Mismatch ==> m.greeted().0 == m
        }),
{
    let preface = encode_utf8(PREFACE@);
    assert((preface + rest).take(preface.len() as int) =~= preface);
    assert((preface + rest).skip(preface.len() as int) =~= rest);
}

/// A connection that fails says why, and up to which stream it got.
pub proof fn a_failing_connection_says_why(m: ConnModel, f: Fault)
    requires
        encode_utf8(f.debug).len() + 8 <= 16_777_215,
    ensures
        m.fails(f).output == m.output + encoded(
            FrameModel::GoAway {
                last_stream_id: m.streams.highest_peer,
                error_code: f.code,
                debug_data: encode_utf8(f.debug),
            },
        )->Ok_0,
{
    reveal(ConnModel::sends);
}

/// The built-in responder answers as the one that speaks in events does: the same
/// head, and the same body in whichever form.
pub proof fn the_two_built_in_responders_agree(
    e: EchoModel,
    id: u32,
    head: RequestModel,
    end_stream: bool,
)
    ensures
        ({
            let (response, body) = built_in(head, end_stream, e.default_body);
            let told = e.answer(id, head, end_stream);
            &&& told[0] matches EventModel::Head { response: said, .. } && said
                == response
            &&& body matches BodyModel::Fixed(octets) ==> octets.len() > 0 ==> told.len() == 2
                && told[1] == (EventModel::Data {
                id,
                data: octets,
                end_stream: true,
            })
            &&& !e.echoing.contains(id) ==> (body is Echo <==> e.after_dispatch(
                id,
                head,
                end_stream,
            ).echoing.contains(id))
        }),
{
}

/// Credit that is given back is announced: where a window grows, exactly that
/// much is told to the client, for that stream or for the connection, and where
/// none grows nothing is said.
pub proof fn returned_credit_is_announced(m: ConnModel, id: u32, len: u32)
    requires
        m.recv_window.window.0 + m.recv_window.unreleased + len <= 0x7fff_ffff,
        m.streams.live.contains_key(id),
        m.streams.live[id].recv_window.window.0 + m.streams.live[id].recv_window.unreleased + len
            <= 0x7fff_ffff,
        len > 0,
    ensures
        ({
            let (n, f) = m.releases_conn(len);
            let grown = n.recv_window.window.0 - m.recv_window.window.0;
            &&& f is None && grown >= 0
            &&& n.output == (if grown > 0 {
                m.output + encoded(
                    FrameModel::WindowUpdate { stream_id: 0, increment: grown as u32 },
                )->Ok_0
            } else {
                m.output
            })
        }),
        ({
            let (n, f) = m.releases_stream(id, len);
            let grown = n.streams.live[id].recv_window.window.0
                - m.streams.live[id].recv_window.window.0;
            &&& f is None && grown >= 0 && n.streams.live.contains_key(id)
            &&& n.output == (if grown > 0 {
                m.output + encoded(
                    FrameModel::WindowUpdate { stream_id: id, increment: grown as u32 },
                )->Ok_0
            } else {
                m.output
            })
        }),
{
    reveal(ConnModel::releases_conn);
    reveal(ConnModel::releases_stream);
    reveal(ConnModel::sends);
}

/// Every stream in the ring waits for credit, its own or the connection's.
pub open spec fn all_without_credit(m: ConnModel) -> bool {
    forall|i: int|
        0 <= i < m.ready.len() ==> {
            let id = #[trigger] m.ready[i];
            m.streams.live.contains_key(id) && (m.send_window.0 <= 0
                || m.streams.live[id].send_window.0 <= 0)
        }
}

/// Nothing that could go is left: after a pump, every stream in the ring has
/// octets to send and waits for credit, its own or the connection's.
pub proof fn a_pump_leaves_only_what_has_no_credit(m: ConnModel)
    requires
        m.streams.live.dom().finite(),
        m.peer.max_frame_size > 0,
        m.pumps().1 is None,
    ensures
        all_without_credit(m.pumps().0),
    decreases m.work_left(),
{
    lemma_laps_use_work(m);
    if m.ready.len() == 0 {
        lemma_flushing_keeps_the_ring(m);
    } else {
        let start = ConnModel { ready: Seq::empty(), ..m };
        let l = lap(start, m.ready);
        lemma_lap_keeps_limits(start, m.ready);
        if m.laps().fault is None {
            if m.laps().wrote {
                a_pump_leaves_only_what_has_no_credit(m.laps().conn);
            } else {
                lemma_idle_lap(start, m.ready);
                let ring = l.stalled + l.served;
                let n = m.laps().conn;
                assert forall|i: int| 0 <= i < n.ready.len() implies {
                    let id = #[trigger] n.ready[i];
                    n.streams.live.contains_key(id) && (n.send_window.0 <= 0
                        || n.streams.live[id].send_window.0 <= 0)
                } by {
                    let id = n.ready[i];
                    rebuilding_the_ring_keeps_the_living(l.conn.streams, ring, id);
                    let alive = |k: u32| l.conn.streams.live.contains_key(k);
                    assert(ring.filter(alive).contains(id));
                    ring.lemma_filter_contains_rev(alive, id);
                    ring.filter_lemma(alive);
                    let k = ring.index_of(id);
                    assert(l.stalled[k] == id);
                }
                let rested = ConnModel {
                    summary: ConnectionSummary {
                        flow_control_stalls: counted(
                            n.summary.flow_control_stalls,
                            if n.ready.len() > 0 {
                                1
                            } else {
                                0
                            },
                        ),
                        ..n.summary
                    },
                    ..n
                };
                assert(all_without_credit(rested));
                lemma_flushing_keeps_the_ring(rested);
            }
        }
    }
}

proof fn lemma_flushing_keeps_the_ring(m: ConnModel)
    requires
        all_without_credit(m),
        m.flushes().1 is None,
    ensures
        all_without_credit(m.flushes().0),
    decreases m.pending_reset.len(),
{
    reveal(ConnModel::sends);
    if m.pending_reset.len() > 0 {
        let (id, code) = m.pending_reset.last();
        let start = ConnModel { pending_reset: m.pending_reset.drop_last(), ..m };
        let n = start.resets(id, code).0;
        leaving_the_ring_moves_no_other_stream(m.ready, id);
        let others = |k: u32| k != id;
        m.ready.filter_lemma(others);
        assert forall|i: int| 0 <= i < n.ready.len() implies {
            let k = #[trigger] n.ready[i];
            n.streams.live.contains_key(k) && (n.send_window.0 <= 0
                || n.streams.live[k].send_window.0 <= 0)
        } by {
            let k = n.ready[i];
            assert(m.ready.filter(others).contains(k));
            m.ready.lemma_filter_contains_rev(others, k);
            let j = m.ready.index_of(k);
            assert(m.ready[j] == k);
        }
        assert(all_without_credit(n));
        lemma_flushing_keeps_the_ring(n);
    }
}

proof fn lemma_visit_keeps_limits(m: ConnModel, id: u32)
    ensures
        m.visits(id).0.peer == m.peer,
        m.visits(id).0.input == m.input,
        m.visits(id).0.requests == m.requests,
        m.visits(id).0.max_frame_size == m.max_frame_size,
{
    reveal(ConnModel::visits);
    reveal(ConnModel::sends_chunk);
    reveal(ConnModel::advances);
    reveal(ConnModel::sends);
}

proof fn lemma_lap_keeps_limits(m: ConnModel, ids: Seq<u32>)
    ensures
        lap(m, ids).conn.peer == m.peer,
        lap(m, ids).conn.input == m.input,
        lap(m, ids).conn.requests == m.requests,
        lap(m, ids).conn.max_frame_size == m.max_frame_size,
    decreases ids.len(),
{
    if ids.len() > 0 {
        lemma_lap_keeps_limits(m, ids.drop_last());
        lemma_visit_keeps_limits(lap(m, ids.drop_last()).conn, ids.last());
    }
}

proof fn lemma_idle_visit(m: ConnModel, id: u32)
    requires
        m.peer.max_frame_size > 0,
        m.visits(id).1 is Ok,
        !(m.visits(id).1->Ok_0 is Wrote),
    ensures
        ({
            let (n, r) = m.visits(id);
            &&& n.send_window == m.send_window
            &&& n.streams.live.dom() == m.streams.live.dom()
            &&& forall|k: u32|
                m.streams.live.contains_key(k) ==> (#[trigger] n.streams.live[k]).send_window
                    == m.streams.live[k].send_window
            &&& r->Ok_0 is Stalled ==> m.streams.live.contains_key(id) && (m.send_window.0 <= 0
                || m.streams.live[id].send_window.0 <= 0)
        }),
{
    reveal(ConnModel::visits);
    reveal(ConnModel::sends_chunk);
    if m.streams.live.contains_key(id) {
        assert(m.visits(id).0.streams.live.dom() =~= m.streams.live.dom());
    }
}

proof fn lemma_idle_lap(m: ConnModel, ids: Seq<u32>)
    requires
        m.peer.max_frame_size > 0,
        lap(m, ids).fault is None,
        !lap(m, ids).wrote,
    ensures
        ({
            let l = lap(m, ids);
            &&& l.served.len() == 0
            &&& l.conn.send_window == m.send_window
            &&& l.conn.streams.live.dom() == m.streams.live.dom()
            &&& forall|k: u32|
                m.streams.live.contains_key(k) ==> (#[trigger] l.conn.streams.live[k]).send_window
                    == m.streams.live[k].send_window
            &&& forall|i: int|
                0 <= i < l.stalled.len() ==> {
                    let id = #[trigger] l.stalled[i];
                    m.streams.live.contains_key(id) && (m.send_window.0 <= 0
                        || m.streams.live[id].send_window.0 <= 0)
                }
        }),
    decreases ids.len(),
{
    if ids.len() > 0 {
        let before = lap(m, ids.drop_last());
        lemma_idle_lap(m, ids.drop_last());
        lemma_lap_keeps_limits(m, ids.drop_last());
        lemma_idle_visit(before.conn, ids.last());
        let l = lap(m, ids);
        assert forall|k: u32| m.streams.live.contains_key(k) implies (
        #[trigger] l.conn.streams.live[k]).send_window == m.streams.live[k].send_window by {
            assert(before.conn.streams.live.dom().contains(k));
            assert(before.conn.streams.live[k].send_window == m.streams.live[k].send_window);
        }
        assert forall|i: int| 0 <= i < l.stalled.len() implies {
            let id = #[trigger] l.stalled[i];
            m.streams.live.contains_key(id) && (m.send_window.0 <= 0
                || m.streams.live[id].send_window.0 <= 0)
        } by {
            if i < before.stalled.len() {
                assert(before.stalled[i] == l.stalled[i]);
            } else {
                let id = ids.last();
                assert(before.conn.streams.live.dom().contains(id));
                assert(before.conn.streams.live[id].send_window
                    == m.streams.live[id].send_window);
            }
        }
    }
}

/// A turn leaves nothing unread and nothing unanswered: where it goes on, no
/// request waits, and no whole frame is left in the input.
pub proof fn a_turn_leaves_nothing_behind(m: ConnModel, default_body: nat)
    requires
        m.streams.live.dom().finite(),
        m.serves(default_body).1 == Ok::<Next, Fault>(Next::Continue),
    ensures
        ({
            let n = m.serves(default_body).0;
            &&& n.requests.len() == 0
            &&& taken(n.max_frame_size, n.input) == (
                Ok::<Option<DecodedModel>, FrameError>(None),
                n.input,
            )
        }),
    decreases m.input.len(), m.requests.len(),
{
    lemma_serves_ends(m, default_body);
    let (n, r) = m.drains();
    if n.requests.len() == 0 {
        lemma_drained(m);
        lemma_pumps_keep_the_input(n);
    } else {
        let (o, f) = ConnModel { requests: Seq::empty(), ..n }.answers_all(
            n.requests,
            default_body,
        );
        a_turn_leaves_nothing_behind(o, default_body);
    }
}

proof fn lemma_drained(m: ConnModel)
    requires
        m.drains().1 == Ok::<Next, Fault>(Next::Continue),
        m.drains().0.requests.len() == 0,
    ensures
        ({
            let n = m.drains().0;
            taken(n.max_frame_size, n.input) == (
                Ok::<Option<DecodedModel>, FrameError>(None),
                n.input,
            )
        }),
    decreases m.input.len(),
{
    let (r, rest) = taken(m.max_frame_size, m.input);
    let m1 = ConnModel { input: rest, ..m };
    if m.requests.len() == 0 {
        if let Ok(Some(d)) = r {
            assert(rest.len() < m.input.len());
            let m2 = m1.takes(d).0;
            if let DecodedModel::Frame(f) = d {
                let counted_frame = ConnModel {
                    summary: ConnectionSummary {
                        frames_received: counted(m1.summary.frames_received, 1),
                        ..m1.summary
                    },
                    ..m1
                };
                lemma_handles_keeps(counted_frame, f);
            }
            lemma_drained(m2);
        }
    }
}

proof fn lemma_flushing_keeps_the_input(m: ConnModel)
    ensures
        m.flushes().0.input == m.input,
        m.flushes().0.requests == m.requests,
        m.flushes().0.max_frame_size == m.max_frame_size,
    decreases m.pending_reset.len(),
{
    reveal(ConnModel::sends);
    if m.pending_reset.len() > 0 {
        let (id, code) = m.pending_reset.last();
        let start = ConnModel { pending_reset: m.pending_reset.drop_last(), ..m };
        lemma_flushing_keeps_the_input(start.resets(id, code).0);
    }
}

proof fn lemma_pumps_keep_the_input(m: ConnModel)
    requires
        m.streams.live.dom().finite(),
    ensures
        m.pumps().0.input == m.input,
        m.pumps().0.requests == m.requests,
        m.pumps().0.max_frame_size == m.max_frame_size,
    decreases m.work_left(),
{
    lemma_laps_use_work(m);
    lemma_flushing_keeps_the_input(m);
    if m.ready.len() > 0 {
        lemma_lap_keeps_limits(ConnModel { ready: Seq::empty(), ..m }, m.ready);
        let n = m.laps().conn;
        if m.laps().fault is None {
            if m.laps().wrote {
                lemma_pumps_keep_the_input(n);
            } else {
                lemma_flushing_keeps_the_input(
                    ConnModel {
                        summary: ConnectionSummary {
                            flow_control_stalls: counted(
                                n.summary.flow_control_stalls,
                                if n.ready.len() > 0 {
                                    1
                                } else {
                                    0
                                },
                            ),
                            ..n.summary
                        },
                        ..n
                    },
                );
            }
        }
    }
}

/// Requests are answered one after the other, each with what the built-in
/// responder says to it: answering two lists is answering them joined.
pub proof fn requests_are_answered_in_order(
    m: ConnModel,
    first: Seq<DispatchModel>,
    second: Seq<DispatchModel>,
    one: DispatchModel,
    default_body: nat,
)
    ensures
        ({
            let (n, f) = m.answers_all(first, default_body);
            m.answers_all(first + second, default_body) == if f is Some {
                (n, f)
            } else {
                n.answers_all(second, default_body)
            }
        }),
        ({
            let (response, body) = built_in(one.head, one.end_stream, default_body);
            m.answers_all(seq![one], default_body) == m.answers(one.id, response, body)
        }),
        m.answers_all(Seq::empty(), default_body) == (m, None::<Fault>),
    decreases second.len(),
{
    assert(seq![one].drop_last() =~= Seq::empty());
    assert(m.answers_all(Seq::empty(), default_body) == (m, None::<Fault>));
    assert(m.answers_all(seq![one].drop_last(), default_body) == (m, None::<Fault>));
    if second.len() == 0 {
        assert(first + second =~= first);
    } else {
        assert((first + second).drop_last() =~= first + second.drop_last());
        requests_are_answered_in_order(m, first, second.drop_last(), one, default_body);
    }
}

/// A body that is not as long as it was said to be costs its stream, at its end;
/// one that is as long ends its request.
pub proof fn a_body_is_as_long_as_it_was_said_to_be(
    m: ConnModel,
    id: u32,
    data: Seq<u8>,
    declared: u64,
)
    requires
        m.open_block is None,
        m.streams.live.contains_key(id),
        m.streams.live[id].state is Open,
        m.streams.live[id].content_length == Some(declared),
        m.streams.live[id].data_received + data.len() <= u64::MAX,
        data.len() <= m.recv_window.window.0,
        data.len() <= m.streams.live[id].recv_window.window.0,
    ensures
        ({
            let (n, f) = m.handles(FrameModel::Data { stream_id: id, data, end_stream: true });
            let reset = encoded(
                FrameModel::RstStream { stream_id: id, error_code: ErrorCode::ProtocolError },
            )->Ok_0;
            &&& f == Ok::<Next, Fault>(Next::Continue)
            &&& m.streams.live[id].data_received + data.len() != declared ==> n.streams.live
                == m.streams.live.remove(id) && n.output.len() >= reset.len() && n.output.skip(
                n.output.len() - reset.len(),
            ) == reset
            &&& m.streams.live[id].data_received + data.len() == declared
                ==> n.streams.live.contains_key(id) && n.streams.live[id].state is HalfClosedRemote
        }),
{
    reveal(ConnModel::takes_data);
    reveal(ConnModel::releases_conn);
    reveal(ConnModel::takes_live_data);
    reveal(ConnModel::advances);
    reveal(ConnModel::mirrors);
    reveal(ConnModel::releases_stream);
    reveal(ConnModel::sends);
    let n = m.handles(FrameModel::Data { stream_id: id, data, end_stream: true }).0;
    let reset = encoded(
        FrameModel::RstStream { stream_id: id, error_code: ErrorCode::ProtocolError },
    )->Ok_0;
    if m.streams.live[id].data_received + data.len() != declared {
        assert(n.streams.live =~= m.streams.live.remove(id));
        assert(n.output.skip(n.output.len() - reset.len()) =~= reset);
    }
}

} // verus!
