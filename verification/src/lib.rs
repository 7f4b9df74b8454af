//! Core of a RakNet transport: wire codec, control packets, the per-session
//! reliability engine (fragmentation, ordering, duplicate suppression,
//! ACK/NACK, retransmission, congestion control) and the offline-handshake
//! state machines, all with verified contracts.

pub mod codec;
pub mod sequence;
pub mod reliability;
pub mod frame;
pub mod packets;
pub mod state;
pub mod datagram;
pub mod split;
pub mod dup;
pub mod order;
pub mod window;
pub mod session;
pub mod listener;

use vstd::prelude::*;

verus! {

/// RakNet protocol version spoken by Minecraft Bedrock.
pub const RAKNET_PROTOCOL_VERSION: u8 = 11;

} // verus!
