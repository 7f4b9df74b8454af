//! The listener core: everything the server-side muxer decides.
//!
//! One listener owns many sessions, keyed by peer address. It answers the
//! offline discovery and handshake packets, routes datagrams to sessions, and
//! serves the advertisement carried in pong replies. The I/O loop around it
//! only moves bytes between this core and the socket.

use vstd::prelude::*;

use crate::codec::{RakAddr, default_magic, spec_default_magic};
use crate::packets::{
    RaknetPacket, OpenConnectionReply1, OpenConnectionReply2, IncompatibleProtocolVersion,
    UnconnectedPong, OpenConnectionRequest1, OpenConnectionRequest2,
};
use crate::session::{MAXIMUM_MTU_SIZE, MINIMUM_MTU_SIZE};
use crate::state::OfflineState;

verus! {

/// The MTU granted for a probe of the given size: the candidate is the probe
/// plus the datagram overhead, capped by the largest supported MTU and held
/// up to the smallest.
pub open spec fn spec_grant_mtu(probe: int) -> int {
    if probe > MAXIMUM_MTU_SIZE {
        MAXIMUM_MTU_SIZE as int
    } else if probe < MINIMUM_MTU_SIZE {
        MINIMUM_MTU_SIZE as int
    } else {
        probe
    }
}

/// Whether sixteen bytes are exactly the known offline magic.
pub fn magic_matches(m: &Vec<u8>) -> (r: bool)
    ensures
        r == (m@ == spec_default_magic()),
{
    let want = default_magic();
    if m.len() != 16 {
        proof {
            assert(m@ != spec_default_magic());
        }
        return false;
    }
    let mut k: usize = 0;
    while k < 16
        invariant
            k <= 16,
            m@.len() == 16,
            want@ == spec_default_magic(),
            forall|q: int| 0 <= q < k ==> m@[q] == spec_default_magic()[q],
        decreases 16 - k,
    {
        if m[k] != want[k] {
            proof {
                assert(m@[k as int] != spec_default_magic()[k as int]);
            }
            return false;
        }
        k = k + 1;
    }
    proof {
        assert(m@ =~= spec_default_magic());
    }
    true
}

/// Decisions of the listener for one inbound offline packet.
pub enum OfflineAction {
    /// Send this packet back to the peer.
    Reply(RaknetPacket),
    /// Open a session for the peer with the negotiated MTU, then reply.
    OpenSession(u16, RaknetPacket),
    /// Nothing to do: the packet is dropped.
    Ignore,
}

/// The listener's own identity and configuration.
pub struct ListenerCore {
    pub guid: u64,
    pub advertisement: Vec<u8>,
}

impl ListenerCore {
    pub fn new(guid: u64) -> (r: ListenerCore)
        ensures
            r.guid == guid,
            r.advertisement@.len() == 0,
    {
        ListenerCore { guid, advertisement: Vec::new() }
    }

    /// Replaces the advertisement served in pong replies.
    pub fn set_advertisement(&mut self, data: Vec<u8>)
        ensures
            final(self).advertisement@ == data@,
            final(self).guid == old(self).guid,
    {
        self.advertisement = data;
    }

    /// A copy of the advertisement served in pong replies.
    pub fn get_advertisement(&self) -> (r: Vec<u8>)
        ensures
            r@ == self.advertisement@,
    {
        let mut copy: Vec<u8> = Vec::new();
        crate::codec::append_bytes(&self.advertisement, &mut copy);
        copy
    }

    /// Decides the reply to one offline packet. An unconnected ping earns a
    /// pong echoing its clock, carrying the server guid and the
    /// advertisement. The first handshake request must carry the known magic;
    /// it then earns a first reply with the granted MTU when it speaks this
    /// protocol version, and the incompatible-version notice otherwise. The
    /// second handshake request opens a session with the agreed MTU and earns
    /// the second reply. All other packets are ignored here.
    pub fn on_offline_packet(&self, p: &RaknetPacket, datagram_len: usize) -> (r: OfflineAction)
        ensures
            match p {
                RaknetPacket::UnconnectedPing(ping) => r matches OfflineAction::Reply(
                    RaknetPacket::UnconnectedPong(pong),
                ) && pong.ping_time == ping.ping_time && pong.server_guid == self.guid
                    && pong.magic@ == spec_default_magic() && (if self.advertisement@.len() > 0 {
                    pong.advertisement matches Some(ad) && ad@ == self.advertisement@
                } else {
                    pong.advertisement is None
                }),
                RaknetPacket::OpenConnectionRequest1(req) => {
                    if req.magic@ != spec_default_magic() {
                        r is Ignore
                    } else if req.protocol_version == crate::RAKNET_PROTOCOL_VERSION {
                        r matches OfflineAction::Reply(RaknetPacket::OpenConnectionReply1(rep))
                            && rep.server_guid == self.guid && rep.cookie is None && rep.magic@
                            == spec_default_magic() && rep.mtu == spec_grant_mtu(
                            datagram_len as int,
                        )
                    } else {
                        r matches OfflineAction::Reply(
                            RaknetPacket::IncompatibleProtocolVersion(rep),
                        ) && rep.protocol == crate::RAKNET_PROTOCOL_VERSION && rep.server_guid == self.guid
                            && rep.magic@ == spec_default_magic()
                    }
                },
                RaknetPacket::OpenConnectionRequest2(req) => match r {
                    OfflineAction::OpenSession(mtu, rep) => mtu == spec_grant_mtu(req.mtu as int)
                        && match rep {
                        RaknetPacket::OpenConnectionReply2(rp) => rp.server_guid == self.guid
                            && rp.mtu == spec_grant_mtu(req.mtu as int) && !rp.security
                            && rp.magic@ == spec_default_magic(),
                        _ => false,
                    },
                    _ => false,
                },
                _ => r is Ignore,
            },
    {
        match p {
            RaknetPacket::UnconnectedPing(ping) => {
                let advertisement: Option<Vec<u8>> = if self.advertisement.len() > 0 {
                    Some(self.get_advertisement())
                } else {
                    None
                };
                OfflineAction::Reply(
                    RaknetPacket::UnconnectedPong(
                        UnconnectedPong {
                            ping_time: ping.ping_time,
                            server_guid: self.guid,
                            magic: default_magic(),
                            advertisement,
                        },
                    ),
                )
            },
            RaknetPacket::OpenConnectionRequest1(req) => {
                if !magic_matches(&req.magic) {
                    return OfflineAction::Ignore;
                }
                if req.protocol_version == crate::RAKNET_PROTOCOL_VERSION {
                    OfflineAction::Reply(
                        RaknetPacket::OpenConnectionReply1(
                            OpenConnectionReply1 {
                                magic: default_magic(),
                                server_guid: self.guid,
                                cookie: None,
                                mtu: ListenerCore::grant_mtu(datagram_len),
                            },
                        ),
                    )
                } else {
                    OfflineAction::Reply(
                        RaknetPacket::IncompatibleProtocolVersion(
                            IncompatibleProtocolVersion {
                                protocol: crate::RAKNET_PROTOCOL_VERSION,
                                magic: default_magic(),
                                server_guid: self.guid,
                            },
                        ),
                    )
                }
            },
            RaknetPacket::OpenConnectionRequest2(req) => {
                let mtu = ListenerCore::grant_mtu(req.mtu as usize);
                OfflineAction::OpenSession(
                    mtu,
                    RaknetPacket::OpenConnectionReply2(
                        OpenConnectionReply2 {
                            magic: default_magic(),
                            server_guid: self.guid,
                            server_addr: RakAddr::V4 { ip: [0, 0, 0, 0], port: 0 },
                            mtu,
                            security: false,
                        },
                    ),
                )
            },
            _ => OfflineAction::Ignore,
        }
    }

    /// Clamps a probed or requested MTU into the supported band.
    pub fn grant_mtu(candidate: usize) -> (r: u16)
        ensures
            r == spec_grant_mtu(candidate as int),
            MINIMUM_MTU_SIZE <= r <= MAXIMUM_MTU_SIZE,
    {
        if candidate > MAXIMUM_MTU_SIZE as usize {
            MAXIMUM_MTU_SIZE
        } else if candidate < MINIMUM_MTU_SIZE as usize {
            MINIMUM_MTU_SIZE
        } else {
            candidate as u16
        }
    }

    /// Whether a first byte marks an offline packet the listener handles.
    pub fn is_offline_packet_id(b: u8) -> (r: bool)
        ensures
            r == (b == crate::packets::ID_UNCONNECTED_PING || b
                == crate::packets::ID_UNCONNECTED_PING_OPEN_CONNECTIONS || b
                == crate::packets::ID_OPEN_CONNECTION_REQUEST_1 || b
                == crate::packets::ID_OPEN_CONNECTION_REQUEST_2),
    {
        b == crate::packets::ID_UNCONNECTED_PING || b
            == crate::packets::ID_UNCONNECTED_PING_OPEN_CONNECTIONS || b
            == crate::packets::ID_OPEN_CONNECTION_REQUEST_1 || b
            == crate::packets::ID_OPEN_CONNECTION_REQUEST_2
    }
}

/// The client's offline dial: which packet to send next, how often, and when
/// to give up. Each timer step resends the current handshake packet; every
/// few failures the probed MTU steps down; past the attempt budget the dial
/// fails.
pub struct ClientHandshake {
    pub offline: OfflineState,
    pub guid: u64,
    pub attempts: usize,
    pub mtu: u16,
    pub granted_mtu: u16,
    pub server_addr: RakAddr,
}

impl ClientHandshake {
    pub open spec fn wf(self) -> bool {
        MINIMUM_MTU_SIZE <= self.mtu <= MAXIMUM_MTU_SIZE && MINIMUM_MTU_SIZE <= self.granted_mtu
            <= MAXIMUM_MTU_SIZE
    }

    pub fn new(guid: u64, server_addr: RakAddr) -> (r: ClientHandshake)
        ensures
            r.wf(),
            r.offline == OfflineState::Handshake1,
            r.guid == guid,
            r.attempts == 0,
            r.mtu == MAXIMUM_MTU_SIZE,
    {
        ClientHandshake {
            offline: OfflineState::Handshake1,
            guid,
            attempts: 0,
            mtu: MAXIMUM_MTU_SIZE,
            granted_mtu: MAXIMUM_MTU_SIZE,
            server_addr,
        }
    }

    /// The MTU candidate probed after a number of failed attempts: the probe
    /// steps down the ladder every few failures.
    pub open spec fn spec_mtu_candidate(attempts: int) -> int {
        if attempts < 4 {
            MAXIMUM_MTU_SIZE as int
        } else if attempts < 7 {
            1200
        } else {
            MINIMUM_MTU_SIZE as int
        }
    }

    /// One retry-timer step while dialing: before the attempt budget runs
    /// out, the packet the current phase calls for goes out again — the first
    /// request padded to the probed MTU, or the second request carrying the
    /// granted one; past the budget the dial reports failure.
    pub fn on_timer(&mut self) -> (r: Option<RaknetPacket>)
        requires
            old(self).wf(),
        ensures
            final(self).wf(),
            final(self).offline == old(self).offline,
            old(self).attempts >= crate::session::MAXIMUM_CONNECTION_ATTEMPTS ==> r is None,
            old(self).attempts < crate::session::MAXIMUM_CONNECTION_ATTEMPTS ==> final(self).attempts == old(self).attempts + 1 && match old(self).offline {
                OfflineState::Handshake1 => r matches Some(
                    RaknetPacket::OpenConnectionRequest1(req),
                ) && req.protocol_version == crate::RAKNET_PROTOCOL_VERSION && req.magic@
                    == spec_default_magic() && final(self).mtu
                    == ClientHandshake::spec_mtu_candidate(old(self).attempts as int) && 18
                    + req.padding == final(self).mtu,
                OfflineState::Handshake2 => r matches Some(
                    RaknetPacket::OpenConnectionRequest2(req),
                ) && req.magic@ == spec_default_magic() && req.cookie is None && req.mtu == old(self).granted_mtu && req.client_guid == old(self).guid,
                OfflineState::HandshakeCompleted => r is None,
            },
    {
        if self.attempts >= crate::session::MAXIMUM_CONNECTION_ATTEMPTS {
            return None;
        }
        self.attempts = self.attempts + 1;
        match self.offline {
            OfflineState::Handshake1 => {
                let cand: u16 = if self.attempts - 1 < 4 {
                    MAXIMUM_MTU_SIZE
                } else if self.attempts - 1 < 7 {
                    1200
                } else {
                    MINIMUM_MTU_SIZE
                };
                self.mtu = cand;
                // the probe packet fills the wire up to the candidate MTU:
                // one id byte, 16 magic bytes, one version byte, then padding
                let padding = (cand as usize) - 18;
                Some(
                    RaknetPacket::OpenConnectionRequest1(
                        OpenConnectionRequest1 {
                            magic: default_magic(),
                            protocol_version: crate::RAKNET_PROTOCOL_VERSION,
                            padding,
                        },
                    ),
                )
            },
            OfflineState::Handshake2 => Some(
                RaknetPacket::OpenConnectionRequest2(
                    OpenConnectionRequest2 {
                        magic: default_magic(),
                        cookie: None,
                        client_proof: false,
                        server_addr: self.server_addr,
                        mtu: self.granted_mtu,
                        client_guid: self.guid,
                    },
                ),
            ),
            OfflineState::HandshakeCompleted => None,
        }
    }

    /// Progress on one offline reply from the server: the first reply fixes
    /// the granted MTU and moves to the second phase; the second reply
    /// completes the offline handshake, handing back the connection request
    /// to send reliably. Anything else changes nothing.
    pub fn on_offline_packet(&mut self, p: &RaknetPacket, now: u64) -> (r: Option<RaknetPacket>)
        requires
            old(self).wf(),
        ensures
            final(self).wf(),
            match p {
                RaknetPacket::OpenConnectionReply1(rep) => (old(self).offline
                    == OfflineState::Handshake1 ==> final(self).offline
                    == OfflineState::Handshake2 && final(self).granted_mtu == spec_grant_mtu(
                    rep.mtu as int,
                ) && final(self).attempts == 0) && r is None,
                RaknetPacket::OpenConnectionReply2(rep) => (old(self).offline
                    == OfflineState::Handshake2 ==> final(self).offline
                    == OfflineState::HandshakeCompleted && final(self).granted_mtu
                    == spec_grant_mtu(rep.mtu as int) && (r matches Some(
                    RaknetPacket::ConnectionRequest(cr),
                ) && cr.server_guid == old(self).guid && cr.timestamp == now && !cr.secure)),
                _ => r is None && *final(self) == *old(self),
            },
    {
        match p {
            RaknetPacket::OpenConnectionReply1(rep) => {
                if self.offline == OfflineState::Handshake1 {
                    self.granted_mtu = ListenerCore::grant_mtu(rep.mtu as usize);
                    self.offline = OfflineState::Handshake2;
                    self.attempts = 0;
                }
                None
            },
            RaknetPacket::OpenConnectionReply2(rep) => {
                if self.offline == OfflineState::Handshake2 {
                    self.granted_mtu = ListenerCore::grant_mtu(rep.mtu as usize);
                    self.offline = OfflineState::HandshakeCompleted;
                    Some(
                        RaknetPacket::ConnectionRequest(
                            crate::packets::ConnectionRequest {
                                server_guid: self.guid,
                                timestamp: now,
                                secure: false,
                            },
                        ),
                    )
                } else {
                    None
                }
            },
            _ => None,
        }
    }
}

} // verus!
