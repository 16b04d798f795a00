//! Greedy packing of queued parts into packets, and the tracker that keeps
//! one batch in flight until the peer acknowledges it.
use vstd::prelude::*;

use crate::codec::{
    all_encodable, lemma_parts_bytes_push, packet_bytes, views, EncodeError,
};
use crate::part::MessagePart;
use crate::text::{write_decimal, NEWLINE};

verus! {

/// Whether the packet of `header` and `ps` fits in `cap` bytes.
pub open spec fn fits<P: MessagePart>(header: u64, ps: Seq<P::V>, cap: nat) -> bool {
    packet_bytes::<P>(header, ps).len() <= cap
}

/// First fit in order: starting from `k` parts, take the next part while the
/// packet still fits.
pub open spec fn grow<P: MessagePart>(header: u64, q: Seq<P::V>, cap: nat, k: nat) -> nat
    decreases q.len() - k,
{
    if k < q.len() && fits::<P>(header, q.subrange(0, k as int + 1), cap) {
        grow::<P>(header, q, cap, k + 1)
    } else {
        k
    }
}

/// How many parts from the front of `q` go into the next packet.
pub open spec fn batch_size<P: MessagePart>(header: u64, q: Seq<P::V>, cap: nat) -> nat {
    grow::<P>(header, q, cap, 0)
}

/// Whether a packet can be started at all: the header, and the first part
/// if there is one, fit.
pub open spec fn can_start<P: MessagePart>(header: u64, q: Seq<P::V>, cap: nat) -> bool {
    fits::<P>(header, q.subrange(0, if q.len() > 0 { 1 } else { 0 }), cap)
}

/// Whether a packet can be started: the header, and the first queued part
/// if there is one, fit in `capacity` bytes.
pub fn fits_front<P: MessagePart>(header: u64, queue: &[P], capacity: usize) -> (r: bool)
    requires
        all_encodable::<P>(views(queue@)),
    ensures
        r == can_start::<P>(header, views(queue@), capacity as nat),
{
    let ghost q = views(queue@);
    let mut out: Vec<u8> = Vec::new();
    write_decimal(header, &mut out);
    out.push(NEWLINE);
    assert(q.subrange(0, 0) =~= Seq::<P::V>::empty());
    assert(out@ =~= packet_bytes::<P>(header, q.subrange(0, 0)));
    if queue.len() > 0 {
        assert(P::encodable(q[0]));
        queue[0].write(&mut out);
        out.push(NEWLINE);
        proof {
            lemma_parts_bytes_push::<P>(Seq::empty(), q[0]);
            assert(Seq::<P::V>::empty().push(q[0]) =~= q.subrange(0, 1));
            assert(out@ =~= packet_bytes::<P>(header, q.subrange(0, 1)));
        }
    }
    out.len() <= capacity
}

/// Takes as many parts from the front of `queue` as fit, in order, into one
/// packet of at most `capacity` bytes headed by `header`, and says how many
/// it took. The parts left over stay queued, in order. Where not even the
/// first part fits the queue is left as it is and the packet is refused.
pub fn encode_batch<P: MessagePart>(header: u64, queue: &mut Vec<P>, capacity: usize) -> (r: Result<(Vec<u8>, usize), EncodeError>)
    requires
        all_encodable::<P>(views(old(queue)@)),
    ensures
        ({
            let q = views(old(queue)@);
            let k = batch_size::<P>(header, q, capacity as nat);
            match r {
                Ok((bytes, n)) => {
                    &&& can_start::<P>(header, q, capacity as nat)
                    &&& n == k
                    &&& n <= q.len()
                    &&& q.len() > 0 ==> n > 0
                    &&& bytes@ == packet_bytes::<P>(header, q.subrange(0, k as int))
                    &&& bytes@.len() <= capacity
                    &&& views(final(queue)@) == q.subrange(k as int, q.len() as int)
                },
                Err(e) => {
                    &&& e == EncodeError::CapacityExceeded
                    &&& !can_start::<P>(header, q, capacity as nat)
                    &&& final(queue)@ == old(queue)@
                },
            }
        }),
{
    let ghost q = views(queue@);
    let ghost cap = capacity as nat;
    let mut out: Vec<u8> = Vec::new();
    write_decimal(header, &mut out);
    out.push(NEWLINE);
    assert(q.subrange(0, 0) =~= Seq::<P::V>::empty());
    assert(out@ =~= packet_bytes::<P>(header, q.subrange(0, 0)));
    if out.len() > capacity {
        proof {
            if q.len() > 0 {
                lemma_parts_bytes_push::<P>(Seq::empty(), q[0]);
                assert(Seq::<P::V>::empty().push(q[0]) =~= q.subrange(0, 1));
            }
        }
        return Err(EncodeError::CapacityExceeded);
    }
    let n = queue.len();
    let mut k: usize = 0;
    let mut full = false;
    while !full && queue.len() > 0
        invariant
            q == views(old(queue)@),
            cap == capacity as nat,
            all_encodable::<P>(q),
            k <= q.len(),
            n == q.len(),
            out@ == packet_bytes::<P>(header, q.subrange(0, k as int)),
            out@.len() <= capacity,
            full ==> k < q.len() && !fits::<P>(header, q.subrange(0, k as int + 1), cap),
            queue@ == old(queue)@.subrange(k as int, n as int),
            grow::<P>(header, q, cap, k as nat) == batch_size::<P>(header, q, cap),
            k == 0 ==> queue@ == old(queue)@,
        decreases q.len() - k, if full { 0int } else { 1int },
    {
        let ghost before = queue@;
        assert(k < q.len());
        let p = queue.remove(0);
        assert(p == old(queue)@[k as int]);
        assert(p@ == q[k as int]);
        let mut line: Vec<u8> = Vec::new();
        p.write(&mut line);
        proof {
            lemma_parts_bytes_push::<P>(q.subrange(0, k as int), p@);
            assert(q.subrange(0, k as int).push(p@) =~= q.subrange(0, k + 1));
        }
        if line.len() < capacity - out.len() {
            let mut i: usize = 0;
            let ghost start = out@;
            while i < line.len()
                invariant
                    i <= line@.len(),
                    out@ == start + line@.subrange(0, i as int),
                decreases line@.len() - i,
            {
                out.push(line[i]);
                assert(out@ =~= start + line@.subrange(0, i + 1));
                i = i + 1;
            }
            assert(line@.subrange(0, i as int) =~= line@);
            out.push(NEWLINE);
            k = k + 1;
            assert(queue@ =~= old(queue)@.subrange(k as int, n as int));
            assert(out@ =~= packet_bytes::<P>(header, q.subrange(0, k as int)));
        } else {
            queue.insert(0, p);
            assert(queue@ =~= before);
            full = true;
        }
    }
    if full && k == 0 {
        return Err(EncodeError::CapacityExceeded);
    }
    assert(views(queue@) =~= q.subrange(k as int, q.len() as int));
    Ok((out, k))
}


/// A longer run of parts never makes a shorter packet.
proof fn lemma_packet_grows<P: MessagePart>(header: u64, q: Seq<P::V>, j: int, k: int)
    requires
        0 <= j <= k <= q.len(),
    ensures
        packet_bytes::<P>(header, q.subrange(0, j)).len() <= packet_bytes::<P>(header, q.subrange(0, k)).len(),
    decreases k - j,
{
    if j < k {
        lemma_packet_grows::<P>(header, q, j, k - 1);
        lemma_parts_bytes_push::<P>(q.subrange(0, k - 1), q[k - 1]);
        assert(q.subrange(0, k - 1).push(q[k - 1]) =~= q.subrange(0, k));
    }
}

proof fn lemma_grow_to<P: MessagePart>(header: u64, q: Seq<P::V>, cap: nat, j: nat, k: nat)
    requires
        j <= k < q.len(),
        fits::<P>(header, q.subrange(0, k as int), cap),
        !fits::<P>(header, q.subrange(0, k as int + 1), cap),
    ensures
        grow::<P>(header, q, cap, j) == k,
    decreases k - j,
{
    if j < k {
        lemma_packet_grows::<P>(header, q, j as int + 1, k as int);
        lemma_grow_to::<P>(header, q, cap, j + 1, k);
    }
}

/// Packing is first fit in order: where the first `k` parts of the queue fit
/// in a packet and the first `k + 1` do not, the packet holds exactly the
/// first `k`, and the rest stays queued behind them.
pub proof fn lemma_greedy_split<P: MessagePart>(header: u64, q: Seq<P::V>, cap: nat, k: nat)
    requires
        k < q.len(),
        fits::<P>(header, q.subrange(0, k as int), cap),
        !fits::<P>(header, q.subrange(0, k as int + 1), cap),
    ensures
        batch_size::<P>(header, q, cap) == k,
        q.subrange(0, k as int) + q.subrange(k as int, q.len() as int) == q,
{
    lemma_grow_to::<P>(header, q, cap, 0, k);
    assert(q.subrange(0, k as int) + q.subrange(k as int, q.len() as int) =~= q);
}

proof fn lemma_grow_fits<P: MessagePart>(header: u64, q: Seq<P::V>, cap: nat, j: nat)
    requires
        j <= q.len(),
        fits::<P>(header, q.subrange(0, j as int), cap),
    ensures
        j <= grow::<P>(header, q, cap, j) <= q.len(),
        fits::<P>(header, q.subrange(0, grow::<P>(header, q, cap, j) as int), cap),
    decreases q.len() - j,
{
    if j < q.len() && fits::<P>(header, q.subrange(0, j as int + 1), cap) {
        lemma_grow_fits::<P>(header, q, cap, j + 1);
    }
}

/// Where a packet can be started, the next packet takes at least one part of
/// a non-empty queue, no more parts than there are, and fits.
pub proof fn lemma_batch_fits<P: MessagePart>(header: u64, q: Seq<P::V>, cap: nat)
    requires
        can_start::<P>(header, q, cap),
    ensures
        batch_size::<P>(header, q, cap) <= q.len(),
        q.len() > 0 ==> batch_size::<P>(header, q, cap) > 0,
        fits::<P>(header, q.subrange(0, batch_size::<P>(header, q, cap) as int), cap),
{
    if q.len() > 0 {
        lemma_grow_fits::<P>(header, q, cap, 1);
        assert(grow::<P>(header, q, cap, 0) == grow::<P>(header, q, cap, 1));
    } else {
        lemma_grow_fits::<P>(header, q, cap, 0);
    }
}

/// A queue whose parts do not all fit in one packet is spread over more than
/// one: the first packet takes at least one part and leaves at least one,
/// it fits, and the parts it takes and those it leaves make up the queue in
/// order.
pub proof fn lemma_overflow_splits<P: MessagePart>(header: u64, q: Seq<P::V>, cap: nat)
    requires
        can_start::<P>(header, q, cap),
        !fits::<P>(header, q, cap),
    ensures
        0 < batch_size::<P>(header, q, cap) < q.len(),
        fits::<P>(header, q.subrange(0, batch_size::<P>(header, q, cap) as int), cap),
        q.subrange(0, batch_size::<P>(header, q, cap) as int)
            + q.subrange(batch_size::<P>(header, q, cap) as int, q.len() as int) == q,
{
    let k = batch_size::<P>(header, q, cap);
    assert(q.subrange(0, q.len() as int) =~= q);
    assert(q.len() > 0) by {
        if q.len() == 0 {
            assert(q.subrange(0, 0) =~= q);
        }
    }
    assert(q.subrange(0, 0) =~= Seq::<P::V>::empty());
    lemma_parts_bytes_push::<P>(Seq::empty(), q[0]);
    assert(Seq::<P::V>::empty().push(q[0]) =~= q.subrange(0, 1));
    lemma_packet_grows::<P>(header, q, 0, 1);
    lemma_grow_fits::<P>(header, q, cap, 1);
    assert(grow::<P>(header, q, cap, 0) == grow::<P>(header, q, cap, 1));
    assert(q.subrange(0, k as int) + q.subrange(k as int, q.len() as int) =~= q);
}

} // verus!
