//! Outbound scheduling pieces shared by the two connection engines: the send
//! queue of one stream, and the round-robin ring of streams with work.

use crate::flow::{Window, SEND_BUDGET};
use crate::octets::octets;
use crate::stream::{chunks, StreamId, StreamModel, StreamTable, TableModel};
use bytes::Bytes;
use std::collections::VecDeque;
use vstd::prelude::*;

verus! {

/// What comes off the front of a send queue: the first chunk where it fits the
/// budget, as much of it as fits otherwise.
pub open spec fn taken_front(queue: Seq<Seq<u8>>, budget: nat) -> (Seq<u8>, Seq<Seq<u8>>) {
    if queue.len() == 0 {
        (Seq::empty(), queue)
    } else if queue[0].len() <= budget {
        (queue[0], queue.drop_first())
    } else {
        (
            queue[0].take(budget as int),
            seq![queue[0].skip(budget as int)] + queue.drop_first(),
        )
    }
}

/// Takes up to `budget` octets off the front of a send queue. A chunk that fits
/// whole is moved out as it is; coalescing across chunks would gain nothing.
pub fn take_from_queue(queue: &mut VecDeque<Bytes>, budget: usize) -> (chunk: Bytes)
    ensures
        octets(chunk) == taken_front(chunks(old(queue)@), budget as nat).0,
        chunks(final(queue)@) == taken_front(chunks(old(queue)@), budget as nat).1,
{
    let ghost before = chunks(queue@);
    match queue.pop_front() {
        None => {
            assert(chunks(queue@) =~= before);
            Bytes::new()
        },
        Some(mut front) => {
            assert(chunks(queue@) =~= before.drop_first());
            if front.len() <= budget {
                front
            } else {
                let chunk = front.split_to(budget);
                queue.push_front(front);
                proof {
                    assert(octets(chunk) =~= before[0].take(budget as int));
                    assert(octets(front) =~= before[0].skip(budget as int));
                    assert(chunks(queue@) =~= seq![before[0].skip(budget as int)]
                        + before.drop_first());
                }
                chunk
            }
        },
    }
}

/// The most one visit may write: our fair-share budget, the credit the stream
/// has, the credit the whole connection has, and the largest frame the peer
/// accepts.
pub open spec fn visit_budget(stream: Window, conn: Window, max_frame_size: u32) -> nat {
    let a = SEND_BUDGET as nat;
    let b = stream.spendable();
    let c = conn.spendable();
    let d = max_frame_size as nat;
    let ab = if a < b {
        a
    } else {
        b
    };
    let cd = if c < d {
        c
    } else {
        d
    };
    if ab < cd {
        ab
    } else {
        cd
    }
}

/// The most one visit may write.
pub fn budget(stream: Window, conn: Window, max_frame_size: u32) -> (n: usize)
    ensures
        n == visit_budget(stream, conn, max_frame_size),
{
    let mut n = SEND_BUDGET;
    if stream.sendable() < n {
        n = stream.sendable();
    }
    if conn.sendable() < n {
        n = conn.sendable();
    }
    if (max_frame_size as usize) < n {
        n = max_frame_size as usize;
    }
    n
}

/// A ring without one stream.
pub open spec fn ring_without(ring: Seq<u32>, id: u32) -> Seq<u32>
    decreases ring.len(),
{
    if ring.len() == 0 {
        Seq::empty()
    } else if ring.last() == id {
        ring_without(ring.drop_last(), id)
    } else {
        ring_without(ring.drop_last(), id).push(ring.last())
    }
}

/// Takes a stream out of the ring.
pub fn remove_from_ring(ring: &mut VecDeque<u32>, id: u32)
    ensures
        final(ring)@ == ring_without(old(ring)@, id),
{
    let ghost before = ring@;
    let mut kept: VecDeque<u32> = VecDeque::new();
    let mut i: usize = 0;
    assert(before.take(0) =~= Seq::empty());
    while i < ring.len()
        invariant
            before == ring@,
            i <= ring@.len(),
            kept@ == ring_without(before.take(i as int), id),
        decreases ring@.len() - i,
    {
        let x = ring[i];
        assert(before.take(i + 1).drop_last() =~= before.take(i as int));
        if x != id {
            kept.push_back(x);
        }
        i += 1;
    }
    assert(before.take(i as int) =~= before);
    *ring = kept;
}

/// The table with every live stream of the ring marked as queued.
pub open spec fn marked(t: TableModel, ring: Seq<u32>) -> TableModel
    decreases ring.len(),
{
    if ring.len() == 0 {
        t
    } else {
        let m = marked(t, ring.drop_last());
        if m.live.contains_key(ring.last()) {
            m.with(ring.last(), StreamModel { queued: true, ..m.live[ring.last()] })
        } else {
            m
        }
    }
}

/// The live streams of a ring, in order.
pub open spec fn still_live(t: TableModel, ring: Seq<u32>) -> Seq<u32>
    decreases ring.len(),
{
    if ring.len() == 0 {
        Seq::empty()
    } else if t.live.contains_key(ring.last()) {
        still_live(t, ring.drop_last()).push(ring.last())
    } else {
        still_live(t, ring.drop_last())
    }
}

/// Marking streams as queued brings none to life and ends none.
pub proof fn lemma_marked_dom(t: TableModel, ring: Seq<u32>)
    ensures
        marked(t, ring).live.dom() == t.live.dom(),
    decreases ring.len(),
{
    if ring.len() > 0 {
        lemma_marked_dom(t, ring.drop_last());
        let m = marked(t, ring.drop_last());
        if m.live.contains_key(ring.last()) {
            assert(m.live.insert(ring.last(), m.live[ring.last()]).dom() =~= m.live.dom());
            assert(marked(t, ring).live.dom() =~= m.live.dom());
        }
    }
}

/// Rebuilds the ring after a lap: marks its live streams as queued, and drops
/// the streams that were retired meanwhile.
pub fn rebuild_ring(streams: &mut StreamTable, ring: VecDeque<u32>) -> (kept: VecDeque<u32>)
    ensures
        final(streams)@ == marked(old(streams)@, ring@),
        kept@ == still_live(old(streams)@, ring@),
{
    let ghost t = streams@;
    let mut kept: VecDeque<u32> = VecDeque::new();
    let mut i: usize = 0;
    assert(ring@.take(0) =~= Seq::empty());
    while i < ring.len()
        invariant
            i <= ring@.len(),
            streams@ == marked(t, ring@.take(i as int)),
            kept@ == still_live(t, ring@.take(i as int)),
        decreases ring@.len() - i,
    {
        let id = ring[i];
        proof {
            assert(ring@.take(i + 1).drop_last() =~= ring@.take(i as int));
            lemma_marked_dom(t, ring@.take(i as int));
            assert(t.live.dom().contains(id) <==> streams@.live.dom().contains(id));
        }
        if let Some(stream) = streams.get_mut(StreamId(id)) {
            stream.queued = true;
            kept.push_back(id);
        }
        i += 1;
    }
    assert(ring@.take(i as int) =~= ring@);
    kept
}

// ---------------------------------------------------------------------------
// Laws
// ---------------------------------------------------------------------------

/// Sending preserves the octets and their order: what is taken, followed by what
/// stays queued, is what was queued. It is within the budget, and falls short of
/// it only where a whole chunk was taken.
pub proof fn sending_preserves_the_octets(queue: Seq<Seq<u8>>, budget: nat)
    ensures
        ({
            let (chunk, rest) = taken_front(queue, budget);
            &&& chunk + rest.flatten() == queue.flatten()
            &&& chunk.len() <= budget
            &&& queue.len() > 0 && chunk.len() < budget ==> chunk == queue[0] && rest
                == queue.drop_first()
            &&& queue.len() > 0 && queue[0].len() > 0 && budget > 0 ==> chunk.len() > 0
            &&& queue.len() == 0 ==> rest.len() == 0
        }),
{
    let (chunk, rest) = taken_front(queue, budget);
    if queue.len() > 0 {
        if queue[0].len() > budget {
            let kept = queue[0].skip(budget as int);
            assert(rest.drop_first() =~= queue.drop_first());
            assert(chunk + kept =~= queue[0]);
            assert(chunk + (kept + queue.drop_first().flatten()) =~= (chunk + kept)
                + queue.drop_first().flatten());
        }
    } else {
        assert(chunk + rest.flatten() =~= queue.flatten());
    }
}

/// A visit may write as much as every limit allows, and no more: the fair share,
/// both windows, and the largest frame the peer accepts.
pub proof fn a_visit_may_write_what_every_limit_allows(
    stream: Window,
    conn: Window,
    max_frame_size: u32,
    n: nat,
)
    ensures
        n <= visit_budget(stream, conn, max_frame_size) <==> n <= SEND_BUDGET && (n == 0 || (n
            <= stream.0 && n <= conn.0)) && n <= max_frame_size,
{
}

/// Leaving the ring takes a stream out wherever it stands, and moves no other.
pub proof fn leaving_the_ring_moves_no_other_stream(ring: Seq<u32>, id: u32)
    ensures
        ring_without(ring, id) == ring.filter(|k: u32| k != id),
    decreases ring.len(),
{
    reveal(Seq::filter);
    if ring.len() > 0 {
        leaving_the_ring_moves_no_other_stream(ring.drop_last(), id);
    }
}

/// Rebuilding the ring keeps the live streams in their order, marks exactly them
/// as queued, and changes nothing else about any stream.
pub proof fn rebuilding_the_ring_keeps_the_living(t: TableModel, ring: Seq<u32>, id: u32)
    ensures
        still_live(t, ring) == ring.filter(|k: u32| t.live.contains_key(k)),
        marked(t, ring).live.contains_key(id) <==> t.live.contains_key(id),
        t.live.contains_key(id) ==> marked(t, ring).live[id] == (StreamModel {
            queued: t.live[id].queued || ring.contains(id),
            ..t.live[id]
        }),
    decreases ring.len(),
{
    reveal(Seq::filter);
    if ring.len() > 0 {
        let init = ring.drop_last();
        rebuilding_the_ring_keeps_the_living(t, init, id);
        rebuilding_the_ring_keeps_the_living(t, init, ring.last());
        assert(ring.contains(id) <==> init.contains(id) || ring.last() == id) by {
            if init.contains(id) {
                let i = init.index_of(id);
                assert(ring[i] == id);
            }
            if ring.contains(id) && ring.last() != id {
                let i = ring.index_of(id);
                assert(init[i] == id);
            }
            assert(ring[ring.len() - 1] == ring.last());
        }
    }
}

} // verus!
