//! The sender's side of acknowledgment: one batch in flight at a time,
//! sent again and again until the peer confirms it.
use vstd::prelude::*;

use crate::assembler::{batch_size, can_start, encode_batch, fits_front, lemma_batch_fits};
use crate::codec::{
    all_encodable, lemma_round_trip, packet_bytes, parse_packet, views, DecodeError, MAX_PACKET_SIZE,
};
use crate::part::MessagePart;
use crate::step::{Step, StepView};

verus! {

/// The state of a tracker as a mathematical value.
pub struct TrackerView<V> {
    /// The sequence number of the batch in flight, or of the next one.
    pub next_seq: u64,
    /// Parts waiting to be packed, oldest first.
    pub queue: Seq<V>,
    /// The encoded batch in flight, if any.
    pub batch: Option<Seq<u8>>,
}

/// Whether the tracker can assemble now: a batch is in flight, or one can be
/// started with the part at the front of the queue.
pub open spec fn ready<P: MessagePart>(s: TrackerView<P::V>) -> bool {
    s.batch is Some || can_start::<P>(s.next_seq, s.queue, MAX_PACKET_SIZE as nat)
}

/// What `assemble` leaves behind and hands out: the batch in flight, or a new
/// batch of as many queued parts as fit, tagged with the next sequence number.
pub open spec fn assembled<P: MessagePart>(s: TrackerView<P::V>) -> (TrackerView<P::V>, Seq<u8>) {
    match s.batch {
        Some(b) => (s, b),
        None => {
            let k = batch_size::<P>(s.next_seq, s.queue, MAX_PACKET_SIZE as nat) as int;
            let b = packet_bytes::<P>(s.next_seq, s.queue.subrange(0, k));
            (TrackerView { next_seq: s.next_seq, queue: s.queue.subrange(k, s.queue.len() as int), batch: Some(b) }, b)
        },
    }
}

/// What a receipt for `seq` leaves behind: the batch in flight is confirmed
/// once `seq` reaches its sequence number; any other receipt changes nothing.
pub open spec fn received<V>(s: TrackerView<V>, seq: u64) -> TrackerView<V> {
    if s.batch is Some && seq >= s.next_seq {
        TrackerView { next_seq: (s.next_seq + 1) as u64, queue: s.queue, batch: None }
    } else {
        s
    }
}

/// Packs queued parts into batches and keeps the last one until it is
/// acknowledged.
pub struct Assembler<P> {
    next_seq: u64,
    added: Vec<P>,
    assembled: Option<Vec<u8>>,
}

impl<P: MessagePart> View for Assembler<P> {
    type V = TrackerView<P::V>;

    closed spec fn view(&self) -> TrackerView<P::V> {
        TrackerView {
            next_seq: self.next_seq,
            queue: views(self.added@),
            batch: match self.assembled {
                Some(b) => Some(b@),
                None => None,
            },
        }
    }
}

impl<P: MessagePart> Assembler<P> {
    /// Every queued part can be written as a line, and the batch in flight
    /// fits in a packet.
    pub open spec fn well_formed(&self) -> bool {
        &&& all_encodable::<P>(self@.queue)
        &&& self@.batch matches Some(b) ==> b.len() <= MAX_PACKET_SIZE
    }

    /// An idle tracker with nothing queued, whose first batch gets sequence number 0.
    pub fn new() -> (r: Self)
        ensures
            r.well_formed(),
            r@ == (TrackerView::<P::V> { next_seq: 0, queue: Seq::empty(), batch: None }),
    {
        let r = Assembler { next_seq: 0, added: Vec::new(), assembled: None };
        assert(r@.queue =~= Seq::<P::V>::empty());
        r
    }

    /// Queues a part behind those already queued, whatever the state.
    pub fn add(&mut self, part: P)
        requires
            old(self).well_formed(),
            P::encodable(part@),
        ensures
            final(self).well_formed(),
            final(self)@ == (TrackerView { queue: old(self)@.queue.push(part@), ..old(self)@ }),
    {
        self.added.push(part);
        assert(views(self.added@) =~= old(self)@.queue.push(part@));
    }

    /// The batch to send now: the one in flight, unchanged, or else a new one.
    pub fn assemble(&mut self) -> (r: Vec<u8>)
        requires
            old(self).well_formed(),
            ready::<P>(old(self)@),
        ensures
            final(self).well_formed(),
            (final(self)@, r@) == assembled::<P>(old(self)@),
            r@.len() <= MAX_PACKET_SIZE,
    {
        match &self.assembled {
            Some(message) => {
                let r = message.clone();
                assert(r@ =~= message@);
                return r;
            },
            None => {},
        }
        let ghost q = self@.queue;
        match encode_batch(self.next_seq, &mut self.added, MAX_PACKET_SIZE) {
            Ok((message, _n)) => {
                let r = message.clone();
                assert(r@ =~= message@);
                self.assembled = Some(message);
                assert(self.well_formed()) by {
                    assert forall|i: int| 0 <= i < self@.queue.len() implies P::encodable(#[trigger] self@.queue[i]) by {
                        let k = batch_size::<P>(self.next_seq, q, MAX_PACKET_SIZE as nat) as int;
                        assert(self@.queue[i] == q[k + i]);
                    }
                }
                r
            },
            Err(_) => {
                assert(false);
                Vec::new()
            },
        }
    }

    /// Takes note that the peer has seen every batch up to `seq`.
    pub fn process_receipt(&mut self, seq: u64)
        requires
            old(self).well_formed(),
            old(self)@.next_seq < u64::MAX,
        ensures
            final(self).well_formed(),
            final(self)@ == received(old(self)@, seq),
    {
        if self.assembled.is_some() && seq >= self.next_seq {
            self.assembled = None;
            self.next_seq = self.next_seq + 1;
        }
    }

    /// The sequence number of the batch in flight, or of the next one.
    pub fn next_seq(&self) -> (r: u64)
        ensures
            r == self@.next_seq,
    {
        self.next_seq
    }

    /// Whether a batch is in flight.
    pub fn is_pending(&self) -> (r: bool)
        ensures
            r == self@.batch is Some,
    {
        self.assembled.is_some()
    }

    /// Whether `assemble` can be called now.
    pub fn can_assemble(&self) -> (r: bool)
        requires
            self.well_formed(),
        ensures
            r == ready::<P>(self@),
    {
        self.assembled.is_some() || fits_front(self.next_seq, self.added.as_slice(), MAX_PACKET_SIZE)
    }
}


/// Assembling again before a receipt hands out the same bytes and changes
/// nothing.
pub proof fn lemma_resend_identical<P: MessagePart>(s: TrackerView<P::V>)
    requires
        ready::<P>(s),
    ensures
        assembled::<P>(assembled::<P>(s).0) == assembled::<P>(s),
{
}

/// Once a batch with sequence number `S` is assembled, a receipt for `S`
/// confirms it and makes the tracker idle with `S + 1` as the next number;
/// a receipt for `S - 1` changes nothing.
pub proof fn lemma_ack_advance<P: MessagePart>(s: TrackerView<P::V>)
    requires
        ready::<P>(s),
        s.next_seq < u64::MAX,
    ensures
        ({
            let t = assembled::<P>(s).0;
            &&& received(t, t.next_seq).batch is None
            &&& received(t, t.next_seq).next_seq == t.next_seq + 1
            &&& received(t, t.next_seq).queue == t.queue
            &&& t.next_seq > 0 ==> received(t, (t.next_seq - 1) as u64) == t
        }),
{
}

/// A new batch reads back as the parts at the front of the queue, under the
/// tracker's sequence number, and the parts it leaves stay queued behind them
/// in order: batch after batch, every queued part is sent once, in the order
/// it was queued.
pub proof fn lemma_batch_delivers_front<P: MessagePart>(s: TrackerView<P::V>)
    requires
        s.batch is None,
        ready::<P>(s),
        all_encodable::<P>(s.queue),
    ensures
        ({
            let (t, b) = assembled::<P>(s);
            let k = batch_size::<P>(s.next_seq, s.queue, MAX_PACKET_SIZE as nat) as int;
            &&& parse_packet::<P>(b) == Ok::<(u64, Seq<P::V>), DecodeError>((s.next_seq, s.queue.subrange(0, k)))
            &&& s.queue.subrange(0, k) + t.queue == s.queue
            &&& s.queue.len() > 0 ==> k > 0
            &&& b.len() <= MAX_PACKET_SIZE
        }),
{
    let k = batch_size::<P>(s.next_seq, s.queue, MAX_PACKET_SIZE as nat) as int;
    lemma_batch_fits::<P>(s.next_seq, s.queue, MAX_PACKET_SIZE as nat);
    let front = s.queue.subrange(0, k);
    assert(all_encodable::<P>(front)) by {
        assert forall|i: int| 0 <= i < front.len() implies P::encodable(#[trigger] front[i]) by {
            assert(front[i] == s.queue[i]);
        }
    }
    lemma_round_trip::<P>(s.next_seq, front);
    assert(front + s.queue.subrange(k, s.queue.len() as int) =~= s.queue);
}

/// The client's tracker of steps.
pub struct ActionAssembler {
    inner: Assembler<Step>,
}

impl View for ActionAssembler {
    type V = TrackerView<StepView>;

    closed spec fn view(&self) -> TrackerView<StepView> {
        self.inner@
    }
}

impl ActionAssembler {
    pub closed spec fn well_formed(&self) -> bool {
        self.inner.well_formed()
    }

    /// An idle tracker with no steps queued; the first action gets sequence number 0.
    pub fn new() -> (r: ActionAssembler)
        ensures
            r.well_formed(),
            r@ == (TrackerView::<StepView> { next_seq: 0, queue: Seq::empty(), batch: None }),
    {
        ActionAssembler { inner: Assembler::new() }
    }

    /// Queues a step.
    pub fn add_step(&mut self, step: Step)
        requires
            old(self).well_formed(),
            Step::encodable(step@),
        ensures
            final(self).well_formed(),
            final(self)@ == (TrackerView { queue: old(self)@.queue.push(step@), ..old(self)@ }),
    {
        self.inner.add(step);
    }

    /// The action to send now: the one in flight, or else a new one.
    pub fn assemble(&mut self) -> (r: Vec<u8>)
        requires
            old(self).well_formed(),
            ready::<Step>(old(self)@),
        ensures
            final(self).well_formed(),
            (final(self)@, r@) == assembled::<Step>(old(self)@),
            r@.len() <= MAX_PACKET_SIZE,
    {
        self.inner.assemble()
    }

    /// Takes note that the server has seen every action up to `seq`.
    pub fn process_receipt(&mut self, seq: u64)
        requires
            old(self).well_formed(),
            old(self)@.next_seq < u64::MAX,
        ensures
            final(self).well_formed(),
            final(self)@ == received(old(self)@, seq),
    {
        self.inner.process_receipt(seq)
    }

    /// The sequence number of the action in flight, or of the next one.
    pub fn next_seq(&self) -> (r: u64)
        ensures
            r == self@.next_seq,
    {
        self.inner.next_seq()
    }

    /// Whether an action is in flight.
    pub fn is_pending(&self) -> (r: bool)
        ensures
            r == self@.batch is Some,
    {
        self.inner.is_pending()
    }

    /// Whether `assemble` can be called now.
    pub fn can_assemble(&self) -> (r: bool)
        requires
            self.well_formed(),
        ensures
            r == ready::<Step>(self@),
    {
        self.inner.can_assemble()
    }
}

} // verus!
