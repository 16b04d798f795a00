//! The two kinds of packet: actions from a client, perceptions from the server.
use vstd::prelude::*;

use crate::codec::{
    all_encodable, decode, encode, packet_bytes, parse_packet, views, DecodeError, EncodeError,
    MAX_PACKET_SIZE,
};
use crate::percept::{Percept, PerceptView};
use crate::step::{Step, StepView};

verus! {

/// A batch of steps, tagged with its own sequence number.
#[derive(Clone, Debug, PartialEq, Eq)]
pub struct Action {
    pub seq: u64,
    pub steps: Vec<Step>,
}

/// A batch of percepts for one client, headed by the sequence number of the
/// last action of that client that the server has taken in.
#[derive(Clone, Debug, PartialEq, Eq)]
pub struct Perception {
    pub last_action: u64,
    pub percepts: Vec<Percept>,
}

impl Action {
    /// Reads an action packet.
    pub fn decode(message: &[u8]) -> (r: Result<Action, DecodeError>)
        ensures
            match r {
                Ok(a) => parse_packet::<Step>(message@) == Ok::<(u64, Seq<StepView>), DecodeError>((a.seq, views(a.steps@))),
                Err(e) => parse_packet::<Step>(message@) == Err::<(u64, Seq<StepView>), DecodeError>(e),
            },
    {
        match decode::<Step>(message) {
            Ok((seq, steps)) => Ok(Action { seq, steps }),
            Err(e) => Err(e),
        }
    }

    /// Writes the action as one packet, if it fits.
    pub fn encode(&self) -> (r: Result<Vec<u8>, EncodeError>)
        requires
            all_encodable::<Step>(views(self.steps@)),
        ensures
            match r {
                Ok(v) => v@ == packet_bytes::<Step>(self.seq, views(self.steps@))
                    && v@.len() <= MAX_PACKET_SIZE,
                Err(e) => e == EncodeError::CapacityExceeded
                    && packet_bytes::<Step>(self.seq, views(self.steps@)).len() > MAX_PACKET_SIZE,
            },
    {
        encode(self.seq, self.steps.as_slice(), MAX_PACKET_SIZE)
    }
}

impl Perception {
    /// Reads a perception packet.
    pub fn decode(message: &[u8]) -> (r: Result<Perception, DecodeError>)
        ensures
            match r {
                Ok(p) => parse_packet::<Percept>(message@)
                    == Ok::<(u64, Seq<PerceptView>), DecodeError>((p.last_action, views(p.percepts@))),
                Err(e) => parse_packet::<Percept>(message@) == Err::<(u64, Seq<PerceptView>), DecodeError>(e),
            },
    {
        match decode::<Percept>(message) {
            Ok((last_action, percepts)) => Ok(Perception { last_action, percepts }),
            Err(e) => Err(e),
        }
    }

    /// Writes the perception as one packet, if it fits.
    pub fn encode(&self) -> (r: Result<Vec<u8>, EncodeError>)
        requires
            all_encodable::<Percept>(views(self.percepts@)),
        ensures
            match r {
                Ok(v) => v@ == packet_bytes::<Percept>(self.last_action, views(self.percepts@))
                    && v@.len() <= MAX_PACKET_SIZE,
                Err(e) => e == EncodeError::CapacityExceeded
                    && packet_bytes::<Percept>(self.last_action, views(self.percepts@)).len()
                    > MAX_PACKET_SIZE,
            },
    {
        encode(self.last_action, self.percepts.as_slice(), MAX_PACKET_SIZE)
    }
}

} // verus!
