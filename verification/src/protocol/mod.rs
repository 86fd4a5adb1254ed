//! The packets that make up the protocol, and the messages inside them.

pub mod ack_header;
pub mod client;
pub mod message;
pub mod packets;
pub mod server;
pub mod sessions;

use crate::error::PicklebackError;
use vstd::prelude::*;

verus! {

/// The version of the protocol spoken here.
pub const PROTOCOL_VERSION: u64 = 1;

/// Why a connection ended, or was not made.
#[derive(Debug, Clone, Copy, PartialEq, Eq, Structural)]
pub enum DisconnectReason {
    Normal,
    ProtocolMismatch,
    HandshakeTimeout,
    TimedOut,
    ServerFull,
}

impl DisconnectReason {
    /// The byte that stands for the reason.
    pub open spec fn spec_code(self) -> u8 {
        match self {
            DisconnectReason::Normal => 0,
            DisconnectReason::ProtocolMismatch => 1,
            DisconnectReason::HandshakeTimeout => 2,
            DisconnectReason::TimedOut => 3,
            DisconnectReason::ServerFull => 4,
        }
    }

    /// The reason that a byte stands for.
    pub open spec fn of_code(code: u8) -> Option<Self> {
        if code == 0 {
            Some(DisconnectReason::Normal)
        } else if code == 1 {
            Some(DisconnectReason::ProtocolMismatch)
        } else if code == 2 {
            Some(DisconnectReason::HandshakeTimeout)
        } else if code == 3 {
            Some(DisconnectReason::TimedOut)
        } else if code == 4 {
            Some(DisconnectReason::ServerFull)
        } else {
            None
        }
    }

    /// The byte of a reason stands for that reason, and no other byte does.
    pub proof fn lemma_code(self, code: u8)
        ensures
            Self::of_code(code) == Some(self) <==> code == self.spec_code(),
    {
    }

    /// The byte that stands for the reason.
    pub fn code(&self) -> (r: u8)
        ensures
            r == self.spec_code(),
    {
        match *self {
            DisconnectReason::Normal => 0,
            DisconnectReason::ProtocolMismatch => 1,
            DisconnectReason::HandshakeTimeout => 2,
            DisconnectReason::TimedOut => 3,
            DisconnectReason::ServerFull => 4,
        }
    }

    /// The reason that a byte stands for.
    pub fn try_from(value: u8) -> (r: Result<Self, PicklebackError>)
        ensures
            match r {
                Ok(reason) => Self::of_code(value) == Some(reason),
                Err(e) => Self::of_code(value) is None && e == PicklebackError::InvalidPacket,
            },
    {
        match value {
            0 => Ok(DisconnectReason::Normal),
            1 => Ok(DisconnectReason::ProtocolMismatch),
            2 => Ok(DisconnectReason::HandshakeTimeout),
            3 => Ok(DisconnectReason::TimedOut),
            4 => Ok(DisconnectReason::ServerFull),
            _ => Err(PicklebackError::InvalidPacket),
        }
    }

    /// The reason in words.
    pub fn as_str(&self) -> (r: &'static str)
        ensures
            r@ == (match *self {
                DisconnectReason::Normal => "Disconnected cleanly."@,
                DisconnectReason::HandshakeTimeout => "Handshake took too long"@,
                DisconnectReason::ProtocolMismatch =>
                    "Protocol version too old - check for an update?"@,
                DisconnectReason::TimedOut => "Timed out"@,
                DisconnectReason::ServerFull => "Server Full"@,
            }),
    {
        match *self {
            DisconnectReason::Normal => "Disconnected cleanly.",
            DisconnectReason::HandshakeTimeout => "Handshake took too long",
            DisconnectReason::ProtocolMismatch => "Protocol version too old - check for an update?",
            DisconnectReason::TimedOut => "Timed out",
            DisconnectReason::ServerFull => "Server Full",
        }
    }
}

} // verus!
