//! What a connection puts on the wire, counted off the octets themselves.
//!
//! The scheduler's laws speak of windows; these speak of DATA frames in the
//! output, and tie the two together.

use crate::conn::engine::{
    counted, lap, lemma_laps_use_work, lemma_taken_len, ConnModel, ConnectionSummary,
};
use crate::conn::laws::{extends, lemma_resets_pending, ring_sound};
use crate::conn::ErrorCode;
use crate::flow::{Window, SEND_BUDGET};
use crate::frame::{
    encoded, header_length, header_stream, lemma_header_octets, FrameModel, FrameType,
};
use crate::sched::{marked, sending_preserves_the_octets, taken_front, visit_budget};
use crate::stream::{low31, total_len, TableModel};
use vstd::prelude::*;

verus! {

/// Whether octets are whole frames, with nothing left over.
pub open spec fn whole(s: Seq<u8>) -> bool
    decreases s.len(),
{
    s.len() == 0 || {
        let total = 9 + header_length(s);
        &&& 9 <= total <= s.len()
        &&& whole(s.skip(total))
    }
}

/// The payload octets of the DATA frames in a run of whole frames: those of one
/// stream, or of all.
pub open spec fn data_octets(s: Seq<u8>, id: Option<u32>) -> nat
    decreases s.len(),
{
    let total = 9 + header_length(s);
    if 9 <= total <= s.len() {
        (if s[3] == FrameType::Data.code() && (id is None || id == Some(header_stream(s))) {
            header_length(s) as nat
        } else {
            0
        }) + data_octets(s.skip(total), id)
    } else {
        0
    }
}

/// The payloads of the DATA frames of one stream in a run of whole frames, one
/// after the other.
pub open spec fn body_octets(s: Seq<u8>, id: u32) -> Seq<u8>
    decreases s.len(),
{
    let total = 9 + header_length(s);
    if 9 <= total <= s.len() {
        (if s[3] == 0 && header_stream(s) == id {
            s.subrange(9, total)
        } else {
            Seq::empty()
        }) + body_octets(s.skip(total), id)
    } else {
        Seq::empty()
    }
}

pub proof fn lemma_bodies_add_up(a: Seq<u8>, b: Seq<u8>, id: u32)
    requires
        whole(a),
    ensures
        body_octets(a + b, id) == body_octets(a, id) + body_octets(b, id),
    decreases a.len(),
{
    if a.len() == 0 {
        assert(a + b =~= b);
        assert(body_octets(a, id) + body_octets(b, id) =~= body_octets(b, id));
    } else {
        let s = a + b;
        let total = 9 + header_length(a);
        assert(s[0] == a[0] && s[1] == a[1] && s[2] == a[2] && s[3] == a[3] && s[5] == a[5] && s[6]
            == a[6] && s[7] == a[7] && s[8] == a[8]);
        assert(s.skip(total) =~= a.skip(total) + b);
        assert(s.subrange(9, total) =~= a.subrange(9, total));
        lemma_bodies_add_up(a.skip(total), b, id);
        assert(body_octets(s, id) =~= body_octets(a, id) + body_octets(b, id));
    }
}

/// The body octets of one frame.
pub open spec fn bodied(f: FrameModel, id: u32) -> Seq<u8> {
    match f {
        FrameModel::Data { stream_id, data, .. } => if id == stream_id {
            data
        } else {
            Seq::empty()
        },
        _ => Seq::empty(),
    }
}

pub proof fn lemma_one_body(f: FrameModel, id: u32)
    requires
        encoded(f) is Ok,
        f.stream() < 0x8000_0000,
    ensures
        body_octets(encoded(f)->Ok_0, id) == bodied(f, id),
{
    let s = encoded(f)->Ok_0;
    let payload = f.payload();
    lemma_header_octets(payload.len() as u32, f.kind(), f.flags(), f.stream(), payload);
    assert(s.skip(9 + payload.len() as int) =~= Seq::empty());
    assert(body_octets(s.skip(9 + payload.len() as int), id) =~= Seq::empty());
    assert(s.subrange(9, 9 + payload.len() as int) =~= payload);
    assert(body_octets(s, id) =~= bodied(f, id));
}

/// What went out for a stream, and what is left of its queue where it is still
/// there, is what was queued.
pub open spec fn follows(before: Seq<Seq<u8>>, went: Seq<u8>, left: Option<Seq<Seq<u8>>>) -> bool {
    match left {
        Some(queue) => went + queue.flatten() == before.flatten(),
        None => went.is_prefix_of(before.flatten()),
    }
}

pub proof fn lemma_follows_chains(
    a: Seq<Seq<u8>>,
    x: Seq<u8>,
    b: Seq<Seq<u8>>,
    y: Seq<u8>,
    c: Option<Seq<Seq<u8>>>,
)
    requires
        follows(a, x, Some(b)),
        follows(b, y, c),
    ensures
        follows(a, x + y, c),
{
    match c {
        Some(queue) => {
            assert(x + y + queue.flatten() =~= x + (y + queue.flatten()));
        },
        None => {
            assert(a.flatten().take((x + y).len() as int) =~= x + b.flatten().take(
                y.len() as int,
            ));
        },
    }
}

pub proof fn lemma_octets_add_up(a: Seq<u8>, b: Seq<u8>, id: Option<u32>)
    requires
        whole(a),
    ensures
        data_octets(a + b, id) == data_octets(a, id) + data_octets(b, id),
        whole(b) ==> whole(a + b),
    decreases a.len(),
{
    if a.len() == 0 {
        assert(a + b =~= b);
    } else {
        let s = a + b;
        let total = 9 + header_length(a);
        assert(s[0] == a[0] && s[1] == a[1] && s[2] == a[2] && s[3] == a[3] && s[5] == a[5] && s[6]
            == a[6] && s[7] == a[7] && s[8] == a[8]);
        assert(s.skip(total) =~= a.skip(total) + b);
        lemma_octets_add_up(a.skip(total), b, id);
    }
}

/// What one frame counts.
pub open spec fn carried(f: FrameModel, id: Option<u32>) -> nat {
    match f {
        FrameModel::Data { stream_id, data, .. } => if id is None || id == Some(stream_id) {
            data.len()
        } else {
            0
        },
        _ => 0,
    }
}

pub proof fn lemma_one_frame(f: FrameModel, id: Option<u32>)
    requires
        encoded(f) is Ok,
        f.stream() < 0x8000_0000,
    ensures
        whole(encoded(f)->Ok_0),
        data_octets(encoded(f)->Ok_0, id) == carried(f, id),
{
    let s = encoded(f)->Ok_0;
    let payload = f.payload();
    lemma_header_octets(payload.len() as u32, f.kind(), f.flags(), f.stream(), payload);
    assert(s.skip(9 + payload.len() as int) =~= Seq::empty());
    assert(whole(Seq::<u8>::empty()));
    assert(data_octets(s.skip(9 + payload.len() as int), id) == 0);
}

/// What `b` has queued for the peer that `a` had not.
pub open spec fn sent(a: ConnModel, b: ConnModel) -> Seq<u8> {
    b.output.skip(a.output.len() as int)
}

/// A window that paid for `n` octets, and never from below zero.
pub open spec fn paid(a: Window, b: Window, n: nat) -> bool {
    &&& n <= a.0 - b.0
    &&& a.0 >= 0 ==> b.0 >= 0
    &&& a.0 < 0 ==> b.0 == a.0
}

/// Streams are named as the wire names them: by 31 bits.
pub open spec fn wire_ids(t: TableModel) -> bool {
    forall|id: u32| #[trigger] t.live.contains_key(id) ==> id < 0x8000_0000
}

/// What is queued on a stream, where it is live.
pub open spec fn queue_of(t: TableModel, id: u32) -> Option<Seq<Seq<u8>>> {
    if t.live.contains_key(id) {
        Some(t.live[id].send_queue)
    } else {
        None
    }
}

/// What a stream sent from `a` to `b` was paid for by its window, and came off
/// the front of its queue.
pub open spec fn stream_metered(a: ConnModel, b: ConnModel, id: u32) -> bool {
    let n = data_octets(sent(a, b), Some(id));
    if a.streams.live.contains_key(id) {
        &&& follows(
            a.streams.live[id].send_queue,
            body_octets(sent(a, b), id),
            queue_of(b.streams, id),
        )
        &&& n <= a.streams.live[id].send_window.spendable()
        &&& b.streams.live.contains_key(id) ==> paid(
            a.streams.live[id].send_window,
            b.streams.live[id].send_window,
            n,
        )
    } else {
        n == 0 && body_octets(sent(a, b), id).len() == 0 && !b.streams.live.contains_key(id)
    }
}

/// All that was sent from `a` to `b` was paid for, at both levels.
pub open spec fn metered(a: ConnModel, b: ConnModel) -> bool {
    &&& extends(a.output, b.output)
    &&& whole(sent(a, b))
    &&& paid(a.send_window, b.send_window, data_octets(sent(a, b), None))
    &&& forall|id: u32| #[trigger] stream_metered(a, b, id)
}

proof fn lemma_metered_chains(a: ConnModel, b: ConnModel, c: ConnModel)
    requires
        metered(a, b),
        metered(b, c),
    ensures
        metered(a, c),
{
    assert(c.output.take(a.output.len() as int) =~= b.output.take(a.output.len() as int));
    assert(sent(a, c) =~= sent(a, b) + sent(b, c)) by {
        assert(c.output.take(b.output.len() as int) == b.output);
        assert forall|i: int| 0 <= i < sent(a, b).len() implies sent(a, c)[i] == sent(a, b)[i] by {
            assert(c.output.take(b.output.len() as int)[a.output.len() + i] == b.output[
                a.output.len() + i]);
        }
    }
    lemma_octets_add_up(sent(a, b), sent(b, c), None);
    assert forall|id: u32| #[trigger] stream_metered(a, c, id) by {
        assert(stream_metered(a, b, id));
        assert(stream_metered(b, c, id));
        lemma_octets_add_up(sent(a, b), sent(b, c), Some(id));
        lemma_bodies_add_up(sent(a, b), sent(b, c), id);
        if a.streams.live.contains_key(id) {
            let x = body_octets(sent(a, b), id);
            let y = body_octets(sent(b, c), id);
            if b.streams.live.contains_key(id) {
                lemma_follows_chains(
                    a.streams.live[id].send_queue,
                    x,
                    b.streams.live[id].send_queue,
                    y,
                    queue_of(c.streams, id),
                );
            } else {
                assert(x + y =~= x);
            }
        }
    }
}

/// A step that queues nothing and spends nothing.
proof fn lemma_quiet_step(a: ConnModel, b: ConnModel)
    requires
        b.output == a.output,
        b.send_window == a.send_window,
        forall|id: u32| #[trigger]
            b.streams.live.contains_key(id) ==> a.streams.live.contains_key(id)
                && b.streams.live[id].send_window == a.streams.live[id].send_window
                && b.streams.live[id].send_queue.flatten()
                == a.streams.live[id].send_queue.flatten(),
    ensures
        metered(a, b),
{
    assert(b.output.take(a.output.len() as int) =~= a.output);
    assert(sent(a, b) =~= Seq::empty());
    assert(whole(Seq::<u8>::empty()));
    assert forall|id: u32| #[trigger] stream_metered(a, b, id) by {
        lemma_nothing_sent(a.streams, b.streams, id);
    }
    assert(data_octets(Seq::empty(), None) == 0);
}

/// Where nothing went out, all of a queue is left.
proof fn lemma_nothing_sent(a: TableModel, b: TableModel, id: u32)
    requires
        a.live.contains_key(id) && b.live.contains_key(id) ==> b.live[id].send_queue.flatten()
            == a.live[id].send_queue.flatten(),
    ensures
        data_octets(Seq::empty(), Some(id)) == 0,
        body_octets(Seq::empty(), id) == Seq::<u8>::empty(),
        a.live.contains_key(id) ==> follows(
            a.live[id].send_queue,
            Seq::empty(),
            queue_of(b, id),
        ),
{
    assert(data_octets(Seq::empty(), Some(id)) == 0);
    assert(body_octets(Seq::empty(), id) =~= Seq::<u8>::empty());
    if a.live.contains_key(id) {
        let all = a.live[id].send_queue.flatten();
        assert(Seq::<u8>::empty() + all =~= all);
        assert(all.take(0) =~= Seq::<u8>::empty());
    }
}

/// A step that queues one frame, and spends what it carries.
proof fn lemma_frame_step(a: ConnModel, b: ConnModel, f: FrameModel)
    requires
        encoded(f) is Ok,
        f.stream() < 0x8000_0000,
        b.output == a.output + encoded(f)->Ok_0,
        paid(a.send_window, b.send_window, carried(f, None)),
        carried(f, None) > 0 ==> a.streams.live.contains_key(f.stream()) && carried(f, None)
            <= a.streams.live[f.stream()].send_window.spendable(),
        forall|id: u32| #[trigger]
            b.streams.live.contains_key(id) ==> a.streams.live.contains_key(id) && paid(
                a.streams.live[id].send_window,
                b.streams.live[id].send_window,
                carried(f, Some(id)),
            ),
        forall|id: u32| #[trigger]
            a.streams.live.contains_key(id) ==> follows(
                a.streams.live[id].send_queue,
                bodied(f, id),
                queue_of(b.streams, id),
            ),
    ensures
        metered(a, b),
{
    assert(b.output.take(a.output.len() as int) =~= a.output);
    assert(sent(a, b) =~= encoded(f)->Ok_0);
    lemma_one_frame(f, None);
    assert forall|id: u32| #[trigger] stream_metered(a, b, id) by {
        lemma_one_frame(f, Some(id));
        lemma_one_body(f, id);
    }
}

proof fn lemma_visit_metered(m: ConnModel, id: u32)
    requires
        wire_ids(m.streams),
    ensures
        metered(m, m.visits(id).0),
        wire_ids(m.visits(id).0.streams),
{
    reveal(ConnModel::visits);
    reveal(ConnModel::sends_chunk);
    reveal(ConnModel::advances);
    reveal(ConnModel::sends);
    let n = m.visits(id).0;
    if !m.streams.live.contains_key(id) {
        lemma_quiet_step(m, n);
    } else {
        let s0 = m.streams.live[id];
        let most = visit_budget(s0.send_window, m.send_window, m.peer.max_frame_size);
        lemma_taken_len(s0.send_queue, most);
        let (chunk, rest) = taken_front(s0.send_queue, most);
        let end_stream = rest.len() == 0 && s0.send_end_stream;
        let f = FrameModel::Data { stream_id: id, data: chunk, end_stream };
        sending_preserves_the_octets(s0.send_queue, most);
        let q0 = s0.send_queue.flatten();
        if (total_len(s0.send_queue) > 0 && most == 0) || (chunk.len() == 0 && !end_stream) {
            assert(Seq::<u8>::empty() + rest.flatten() =~= rest.flatten());
            assert(chunk.len() == 0 ==> chunk =~= Seq::<u8>::empty());
            lemma_quiet_step(m, n);
        } else {
            assert(encoded(f) is Ok);
            assert forall|k: u32| #[trigger] m.streams.live.contains_key(k) implies follows(
                m.streams.live[k].send_queue,
                bodied(f, k),
                queue_of(n.streams, k),
            ) by {
                if k == id {
                    assert((chunk + rest.flatten()).take(chunk.len() as int) =~= chunk);
                } else {
                    lemma_nothing_sent(m.streams, n.streams, k);
                }
            }
            lemma_frame_step(m, n, f);
        }
    }
}

proof fn lemma_lap_metered(m: ConnModel, ids: Seq<u32>)
    requires
        wire_ids(m.streams),
    ensures
        metered(m, lap(m, ids).conn),
        wire_ids(lap(m, ids).conn.streams),
    decreases ids.len(),
{
    if ids.len() == 0 {
        lemma_quiet_step(m, m);
    } else {
        lemma_lap_metered(m, ids.drop_last());
        let l = lap(m, ids.drop_last());
        if l.fault is None {
            lemma_visit_metered(l.conn, ids.last());
            lemma_metered_chains(m, l.conn, l.conn.visits(ids.last()).0);
        }
    }
}

pub proof fn lemma_marked_windows(t: TableModel, ring: Seq<u32>)
    ensures
        forall|id: u32| #[trigger]
            marked(t, ring).live.contains_key(id) ==> t.live.contains_key(id) && marked(
                t,
                ring,
            ).live[id].send_window == t.live[id].send_window && marked(t, ring).live[id].send_queue
                == t.live[id].send_queue,
        marked(t, ring).highest_local == t.highest_local,
        marked(t, ring).initial_send_window == t.initial_send_window,
    decreases ring.len(),
{
    if ring.len() > 0 {
        lemma_marked_windows(t, ring.drop_last());
    }
}

proof fn lemma_laps_metered(m: ConnModel)
    requires
        wire_ids(m.streams),
    ensures
        metered(m, m.laps().conn),
        wire_ids(m.laps().conn.streams),
{
    let start = ConnModel { ready: Seq::empty(), ..m };
    lemma_quiet_step(m, start);
    lemma_lap_metered(start, m.ready);
    let l = lap(start, m.ready);
    lemma_metered_chains(m, start, l.conn);
    if l.fault is None {
        lemma_marked_windows(l.conn.streams, l.stalled + l.served);
        lemma_quiet_step(l.conn, m.laps().conn);
        lemma_metered_chains(m, l.conn, m.laps().conn);
    }
}

/// A RST_STREAM is not DATA, whatever stream it names.
proof fn lemma_reset_metered(m: ConnModel, id: u32, code: ErrorCode)
    ensures
        metered(m, m.resets(id, code).0),
{
    reveal(ConnModel::sends);
    let n = m.resets(id, code).0;
    let f = FrameModel::RstStream { stream_id: id, error_code: code };
    let g = FrameModel::RstStream { stream_id: low31(id), error_code: code };
    assert(f.payload() == g.payload());
    assert(low31(low31(id)) == low31(id));
    assert(encoded(f) == encoded(g));
    assert forall|k: u32| #[trigger] m.streams.live.contains_key(k) implies follows(
        m.streams.live[k].send_queue,
        bodied(g, k),
        queue_of(n.streams, k),
    ) by {
        lemma_nothing_sent(m.streams, n.streams, k);
    }
    lemma_frame_step(m, n, g);
}

proof fn lemma_flushes_metered(m: ConnModel)
    ensures
        metered(m, m.flushes().0),
    decreases m.pending_reset.len(),
{
    if m.pending_reset.len() == 0 {
        lemma_quiet_step(m, m);
    } else {
        let (id, code) = m.pending_reset.last();
        let a = ConnModel { pending_reset: m.pending_reset.drop_last(), ..m };
        lemma_quiet_step(m, a);
        lemma_reset_metered(a, id, code);
        lemma_resets_pending(a, id, code);
        let b = a.resets(id, code).0;
        lemma_metered_chains(m, a, b);
        lemma_flushes_metered(b);
        lemma_metered_chains(m, b, b.flushes().0);
    }
}

proof fn lemma_pumps_metered(m: ConnModel)
    requires
        m.streams.live.dom().finite(),
        wire_ids(m.streams),
    ensures
        metered(m, m.pumps().0),
    decreases m.work_left(),
{
    lemma_laps_use_work(m);
    if m.ready.len() == 0 {
        lemma_flushes_metered(m);
    } else {
        lemma_laps_metered(m);
        let l = m.laps();
        if l.fault is None {
            if !l.wrote {
                let stalls = if l.conn.ready.len() > 0 {
                    1int
                } else {
                    0int
                };
                let n = ConnModel {
                    summary: ConnectionSummary {
                        flow_control_stalls: counted(l.conn.summary.flow_control_stalls, stalls),
                        ..l.conn.summary
                    },
                    ..l.conn
                };
                lemma_quiet_step(l.conn, n);
                lemma_flushes_metered(n);
                lemma_metered_chains(m, l.conn, n);
                lemma_metered_chains(m, n, n.flushes().0);
            } else {
                lemma_pumps_metered(l.conn);
                lemma_metered_chains(m, l.conn, l.conn.pumps().0);
            }
        }
    }
}

/// We never emit more octets than the peer credited, at either level: counted
/// off the wire, the DATA that pumping writes fits the connection window, that
/// of each stream fits its own, and both windows are left that much smaller.
pub proof fn nothing_is_sent_on_credit_that_was_not_given(m: ConnModel, id: u32)
    requires
        m.streams.live.dom().finite(),
        wire_ids(m.streams),
    ensures
        ({
            let n = m.pumps().0;
            let all = data_octets(sent(m, n), None);
            let own = data_octets(sent(m, n), Some(id));
            &&& extends(m.output, n.output)
            &&& whole(sent(m, n))
            &&& all <= m.send_window.spendable()
            &&& all <= m.send_window.0 - n.send_window.0
            &&& m.send_window.0 >= 0 ==> n.send_window.0 >= 0
            &&& m.send_window.0 < 0 ==> n.send_window.0 == m.send_window.0
            &&& m.streams.live.contains_key(id) ==> own
                <= m.streams.live[id].send_window.spendable()
            &&& !m.streams.live.contains_key(id) ==> own == 0
            &&& m.streams.live.contains_key(id) && n.streams.live.contains_key(id) ==> own
                <= m.streams.live[id].send_window.0 - n.streams.live[id].send_window.0
        }),
{
    lemma_pumps_metered(m);
    assert(stream_metered(m, m.pumps().0, id));
}

/// Bodies arrive as they were queued: read off the wire, the DATA that pumping
/// writes for a stream is the front of what was queued for it, octet for octet
/// and in order, and what is left queued is the rest. Nothing goes out for a
/// stream that is not there.
pub proof fn a_body_goes_out_as_it_was_queued(m: ConnModel, id: u32)
    requires
        m.streams.live.dom().finite(),
        wire_ids(m.streams),
    ensures
        ({
            let n = m.pumps().0;
            let went = body_octets(sent(m, n), id);
            if !m.streams.live.contains_key(id) {
                went.len() == 0
            } else {
                let queued = m.streams.live[id].send_queue.flatten();
                if n.streams.live.contains_key(id) {
                    went + n.streams.live[id].send_queue.flatten() == queued
                } else {
                    went.is_prefix_of(queued)
                }
            }
        }),
{
    lemma_pumps_metered(m);
    assert(stream_metered(m, m.pumps().0, id));
}

/// What a visit to `k` puts on the wire for `id`.
proof fn lemma_visit_share(m: ConnModel, k: u32, id: u32)
    requires
        wire_ids(m.streams),
    ensures
        data_octets(sent(m, m.visits(k).0), Some(id)) <= (if k == id {
            SEND_BUDGET as nat
        } else {
            0
        }),
{
    reveal(ConnModel::visits);
    reveal(ConnModel::sends_chunk);
    reveal(ConnModel::advances);
    reveal(ConnModel::sends);
    let n = m.visits(k).0;
    if n.output == m.output {
        assert(sent(m, n) =~= Seq::empty());
        assert(data_octets(Seq::empty(), Some(id)) == 0);
    } else {
        let s = m.streams.live[k];
        let most = visit_budget(s.send_window, m.send_window, m.peer.max_frame_size);
        lemma_taken_len(s.send_queue, most);
        let (chunk, rest) = taken_front(s.send_queue, most);
        let f = FrameModel::Data {
            stream_id: k,
            data: chunk,
            end_stream: rest.len() == 0 && s.send_end_stream,
        };
        assert(sent(m, n) =~= encoded(f)->Ok_0);
        lemma_one_frame(f, Some(id));
    }
}

proof fn lemma_lap_share(m: ConnModel, ids: Seq<u32>, id: u32)
    requires
        wire_ids(m.streams),
        ids.no_duplicates(),
    ensures
        data_octets(sent(m, lap(m, ids).conn), Some(id)) <= SEND_BUDGET,
        !ids.contains(id) ==> data_octets(sent(m, lap(m, ids).conn), Some(id)) == 0,
    decreases ids.len(),
{
    if ids.len() == 0 {
        assert(sent(m, m) =~= Seq::empty());
        assert(data_octets(Seq::empty(), Some(id)) == 0);
    } else {
        let init = ids.drop_last();
        lemma_lap_share(m, init, id);
        lemma_lap_metered(m, init);
        let l = lap(m, init);
        assert(init.contains(id) ==> ids.contains(id)) by {
            if init.contains(id) {
                let i = init.index_of(id);
                assert(ids[i] == id);
            }
        }
        assert(init.contains(id) ==> ids.last() != id) by {
            if init.contains(id) {
                let i = init.index_of(id);
                assert(ids[i] != ids[ids.len() - 1]);
            }
        }
        if l.fault is None {
            let n = l.conn.visits(ids.last()).0;
            lemma_visit_share(l.conn, ids.last(), id);
            lemma_visit_metered(l.conn, ids.last());
            assert(ids.contains(ids[ids.len() - 1]));
            assert(sent(m, n) =~= sent(m, l.conn) + sent(l.conn, n)) by {
                assert(n.output.take(l.conn.output.len() as int) == l.conn.output);
                assert forall|i: int| 0 <= i < sent(m, l.conn).len() implies sent(m, n)[i] == sent(
                    m,
                    l.conn,
                )[i] by {
                    assert(n.output.take(l.conn.output.len() as int)[m.output.len() + i]
                        == l.conn.output[m.output.len() + i]);
                }
            }
            lemma_octets_add_up(sent(m, l.conn), sent(l.conn, n), Some(id));
        }
    }
}

/// One large response cannot starve the small ones: a lap of the ring gives
/// every stream its turn before any stream gets a second one, and no turn is
/// worth more than the fair share.
pub proof fn no_stream_takes_more_than_its_share_of_a_lap(m: ConnModel, id: u32)
    requires
        wire_ids(m.streams),
        ring_sound(m),
    ensures
        data_octets(sent(m, m.laps().conn), Some(id)) <= SEND_BUDGET,
        !m.ready.contains(id) ==> data_octets(sent(m, m.laps().conn), Some(id)) == 0,
{
    let start = ConnModel { ready: Seq::empty(), ..m };
    lemma_lap_share(start, m.ready, id);
    assert(sent(m, m.laps().conn) == sent(start, lap(start, m.ready).conn));
}

} // verus!
