//! Decisions of the client's main loop.
use vstd::prelude::*;
use vstd::utf8::*;

use crate::assembler::can_start;
use crate::codec::{parts_bytes, MAX_PACKET_SIZE};
use crate::part::MessagePart;
use crate::step::{Step, StepView};
use crate::text::{find_byte, lacks, lemma_decimal_len, lemma_find_bounds, text_bytes, NEWLINE};

verus! {

/// Why a broadcast the player typed is not sent.
#[derive(Clone, Copy, Debug, PartialEq, Eq, Structural)]
pub enum BroadcastError {
    /// Broadcasts can not be empty.
    Empty,
    /// The text takes more than half a packet.
    TooLong,
    /// The text holds a line end, which the wire format cannot carry.
    LineEnd,
}

/// A step as the client makes it: one line, and a broadcast no longer than
/// `broadcast_step` lets through.
pub open spec fn client_step(v: StepView) -> bool {
    &&& Step::encodable(v)
    &&& v matches StepView::Broadcast(t) ==> encode_utf8(t).len() <= MAX_PACKET_SIZE / 2
}

/// A queue that starts with a step the client makes can always start a
/// packet, whatever the sequence number: such a step never is too large to
/// be sent.
pub proof fn lemma_client_step_fits(seq: u64, q: Seq<StepView>)
    requires
        q.len() > 0 ==> client_step(q[0]),
    ensures
        can_start::<Step>(seq, q, MAX_PACKET_SIZE as nat),
{
    lemma_decimal_len(seq);
    if q.len() > 0 {
        let front = q.subrange(0, 1);
        assert(front.drop_first() =~= Seq::<StepView>::empty());
        assert(parts_bytes::<Step>(Seq::<StepView>::empty()) =~= Seq::<u8>::empty());
        assert(parts_bytes::<Step>(front) == Step::line(q[0]) + seq![NEWLINE]);
        match q[0] {
            StepView::ScheduleManeuver { delay, angle } => {
                lemma_decimal_len(delay);
                lemma_decimal_len(angle);
            },
            _ => {},
        }
    } else {
        assert(q.subrange(0, 0) =~= Seq::<StepView>::empty());
        assert(parts_bytes::<Step>(Seq::<StepView>::empty()) =~= Seq::<u8>::empty());
    }
}

/// The step that starts broadcasting `message`, or why there is none.
pub fn broadcast_step(message: String) -> (r: Result<Step, BroadcastError>)
    ensures
        ({
            let b = encode_utf8(message@);
            match r {
                Ok(step) => step@ == StepView::Broadcast(message@) && Step::encodable(step@)
                    && 0 < b.len() <= MAX_PACKET_SIZE / 2 && client_step(step@),
                Err(BroadcastError::Empty) => b.len() == 0,
                Err(BroadcastError::TooLong) => b.len() > MAX_PACKET_SIZE / 2,
                Err(BroadcastError::LineEnd) => 0 < b.len() <= MAX_PACKET_SIZE / 2 && !lacks(b, NEWLINE),
            }
        }),
{
    let len = text_bytes(&message).len();
    if len == 0 {
        return Err(BroadcastError::Empty);
    }
    if len > MAX_PACKET_SIZE / 2 {
        return Err(BroadcastError::TooLong);
    }
    let b = text_bytes(&message);
    let n = find_byte(b, 0, len, NEWLINE);
    proof {
        assert(b@.subrange(0, len as int) =~= b@);
        lemma_find_bounds(b@, NEWLINE);
        if n < len {
            assert(b@[n as int] == NEWLINE);
        } else {
            assert(b@.subrange(0, n as int) =~= b@);
        }
    }
    if n < len {
        return Err(BroadcastError::LineEnd);
    }
    Ok(Step::Broadcast(message))
}

} // verus!
