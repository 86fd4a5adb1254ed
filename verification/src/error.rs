//! Errors reported by the library.

use vstd::prelude::*;

verus! {

/// Why a byte level read or write could not be carried out.
#[derive(Debug, Clone, Copy, PartialEq, Eq, Structural)]
pub enum IoError {
    /// The input ended before the value being read was complete.
    UnexpectedEof,
    /// The output has no room left for the value being written.
    WriteZero,
}

/// Reasons for not being able to send due to backpressure.
#[derive(Debug, Clone, Copy, PartialEq, Eq, Structural)]
pub enum Backpressure {
    /// There are too many unacked packets outstanding, so nothing more can be sent
    /// until some acks arrive.
    TooManyPending,
}

/// Pickleback specific errors.
#[derive(Debug, Clone, Copy, PartialEq, Eq, Structural)]
pub enum PicklebackError {
    /// A byte level read or write failed.
    Io(IoError),
    /// Tried to insert into a sequence buffer, but the sequence is too old for it.
    SequenceTooOld,
    /// Parsing packet format error.
    InvalidPacket,
    /// Packet arrived too late to be useful / out of sequence.
    StalePacket,
    /// Already received this packet.
    DuplicatePacket,
    /// Parsing message format error.
    InvalidMessage,
    /// Can't send due to backpressure (number of unacks, bandwidth, etc).
    Backpressure(Backpressure),
    /// Payload exceeds `max_message_size` from the config.
    PayloadTooBig,
    /// Channel doesn't exist.
    NoSuchChannel,
    /// Packet came from an address other than the one connected to.
    SocketAddrMismatch,
}

impl PicklebackError {
    /// The byte level error that caused this one, where there is one.
    pub fn source(&self) -> (r: Option<IoError>)
        ensures
            r == (match *self {
                PicklebackError::Io(e) => Some(e),
                _ => None,
            }),
    {
        match *self {
            PicklebackError::Io(e) => Some(e),
            _ => None,
        }
    }
}

impl From<IoError> for PicklebackError {
    fn from(err: IoError) -> (r: Self) {
        PicklebackError::Io(err)
    }
}

impl vstd::std_specs::convert::FromSpecImpl<IoError> for PicklebackError {
    open spec fn obeys_from_spec() -> bool {
        true
    }

    open spec fn from_spec(err: IoError) -> Self {
        PicklebackError::Io(err)
    }
}

} // verus!
