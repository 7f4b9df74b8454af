//! Connection lifecycle states and disconnect reasons.

use vstd::prelude::*;

use crate::codec::DecodeError;

verus! {

/// Lifecycle of one session.
#[derive(Clone, Copy, PartialEq, Eq, Structural, Debug)]
pub enum ConnState {
    Unconnected,
    Connecting,
    Connect,
    Disconnecting,
    Disconnected,
}

/// Progress of the offline handshake.
#[derive(Clone, Copy, PartialEq, Eq, Structural, Debug)]
pub enum OfflineState {
    Handshake1,
    Handshake2,
    HandshakeCompleted,
}

/// Events a session surfaces to the application layer.
#[derive(Clone, Copy, PartialEq, Eq, Structural, Debug)]
pub enum Event {
    NewIncomingConnection,
}

/// Why a session ended, as carried on the wire as one byte.
#[derive(Clone, Copy, PartialEq, Eq, Structural, Debug)]
pub enum DisconnectReason {
    ClosedByRemotePeer,
    ShuttingDown,
    Disconnected,
    TimedOut,
    ConnectionRequestFailed,
    AlreadyConnected,
    NoFreeIncomingConnections,
    IncompatibleProtocolVersion,
    IPRecentlyConnected,
    BadPacket,
    QueueTooLong,
}

pub open spec fn reason_to_u8(r: DisconnectReason) -> u8 {
    match r {
        DisconnectReason::ClosedByRemotePeer => 0,
        DisconnectReason::ShuttingDown => 1,
        DisconnectReason::Disconnected => 2,
        DisconnectReason::TimedOut => 3,
        DisconnectReason::ConnectionRequestFailed => 4,
        DisconnectReason::AlreadyConnected => 5,
        DisconnectReason::NoFreeIncomingConnections => 6,
        DisconnectReason::IncompatibleProtocolVersion => 7,
        DisconnectReason::IPRecentlyConnected => 8,
        DisconnectReason::BadPacket => 9,
        DisconnectReason::QueueTooLong => 10,
    }
}

pub open spec fn reason_from_u8(v: u8) -> Option<DisconnectReason> {
    if v == 0 {
        Some(DisconnectReason::ClosedByRemotePeer)
    } else if v == 1 {
        Some(DisconnectReason::ShuttingDown)
    } else if v == 2 {
        Some(DisconnectReason::Disconnected)
    } else if v == 3 {
        Some(DisconnectReason::TimedOut)
    } else if v == 4 {
        Some(DisconnectReason::ConnectionRequestFailed)
    } else if v == 5 {
        Some(DisconnectReason::AlreadyConnected)
    } else if v == 6 {
        Some(DisconnectReason::NoFreeIncomingConnections)
    } else if v == 7 {
        Some(DisconnectReason::IncompatibleProtocolVersion)
    } else if v == 8 {
        Some(DisconnectReason::IPRecentlyConnected)
    } else if v == 9 {
        Some(DisconnectReason::BadPacket)
    } else if v == 10 {
        Some(DisconnectReason::QueueTooLong)
    } else {
        None
    }
}

impl DisconnectReason {
    /// Appends the one-byte wire form.
    pub fn encode_raknet(&self, out: &mut Vec<u8>)
        ensures
            final(out)@ == old(out)@ + seq![reason_to_u8(*self)],
    {
        let b: u8 = match self {
            DisconnectReason::ClosedByRemotePeer => 0,
            DisconnectReason::ShuttingDown => 1,
            DisconnectReason::Disconnected => 2,
            DisconnectReason::TimedOut => 3,
            DisconnectReason::ConnectionRequestFailed => 4,
            DisconnectReason::AlreadyConnected => 5,
            DisconnectReason::NoFreeIncomingConnections => 6,
            DisconnectReason::IncompatibleProtocolVersion => 7,
            DisconnectReason::IPRecentlyConnected => 8,
            DisconnectReason::BadPacket => 9,
            DisconnectReason::QueueTooLong => 10,
        };
        out.push(b);
        assert(out@ =~= old(out)@ + seq![reason_to_u8(*self)]);
    }

    /// Reads the one-byte wire form; unknown values are rejected.
    pub fn decode_raknet(buf: &Vec<u8>, pos: usize) -> (r: Result<
        (DisconnectReason, usize),
        DecodeError,
    >)
        ensures
            match r {
                Ok((v, end)) => pos < buf@.len() && end == pos + 1 && reason_from_u8(
                    buf@[pos as int],
                ) == Some(v),
                Err(e) => match e {
                    DecodeError::UnexpectedEof => pos >= buf@.len(),
                    DecodeError::UnknownDisconnectReason(b) => pos < buf@.len() && b == buf@[pos as int] && reason_from_u8(b) is None,
                    _ => false,
                },
            },
    {
        if pos >= buf.len() {
            return Err(DecodeError::UnexpectedEof);
        }
        let v = buf[pos];
        let reason = match v {
            0 => DisconnectReason::ClosedByRemotePeer,
            1 => DisconnectReason::ShuttingDown,
            2 => DisconnectReason::Disconnected,
            3 => DisconnectReason::TimedOut,
            4 => DisconnectReason::ConnectionRequestFailed,
            5 => DisconnectReason::AlreadyConnected,
            6 => DisconnectReason::NoFreeIncomingConnections,
            7 => DisconnectReason::IncompatibleProtocolVersion,
            8 => DisconnectReason::IPRecentlyConnected,
            9 => DisconnectReason::BadPacket,
            10 => DisconnectReason::QueueTooLong,
            _ => {
                return Err(DecodeError::UnknownDisconnectReason(v));
            },
        };
        Ok((reason, pos + 1))
    }
}

/// The eleven wire values map back to the reasons that produced them.
pub proof fn lemma_reason_round_trip(r: DisconnectReason)
    ensures
        reason_from_u8(reason_to_u8(r)) == Some(r),
{
}

} // verus!
