//! The per-session reliability engine and lifecycle state machine.
//!
//! A session turns application messages into encapsulated packets (splitting
//! large ones), frames them into datagrams under a congestion budget, tracks
//! reliable datagrams until they are acknowledged, retransmits on NACK or
//! timeout, suppresses duplicate reliable frames, reorders per-channel
//! traffic, and drives the offline handshake, keep-alive and idle timeout.

use vstd::prelude::*;

use crate::codec::DecodeError;
use crate::datagram::{
    DatagramHeader, SequenceRange, decode_acklist, encode_acklist, dec_dgram_header, dec_acklist,
    FLAG_VALID, FLAG_ACK, FLAG_NACK,
};
use crate::dup::DuplicateWindow;
use crate::frame::EncapsulatedPacket;
use crate::order::{OrderingChannel, wrap_dist, ORDERING_CHANNEL_COUNT};
use crate::packets::RaknetPacket;
use crate::reliability::{Reliability, RakPriority};
use crate::sequence::Sequence24;
use crate::split::SplitAssembler;
use crate::state::{ConnState, DisconnectReason, OfflineState};
use crate::codec::RakAddr;
use crate::window::SlidingWindow;

verus! {

/// Bytes of UDP and IP overhead assumed per datagram.
pub const UDP_HEADER_SIZE: usize = 8;

/// Bytes of the datagram header: flags plus the 24-bit sequence.
pub const RAKNET_DATAGRAM_HEADER_SIZE: usize = 4;

/// Largest encapsulated-packet header.
pub const MAXIMUM_ENCAPSULATED_HEADER_SIZE: usize = 28;

/// Ordering channels per session.
pub const MAXIMUM_ORDERING_CHANNELS: u8 = 16;

/// Idle milliseconds after which a session closes as timed out.
pub const SESSION_TIMEOUT_MS: u64 = 10000;

/// Idle milliseconds after which a session sends a keep-alive ping.
pub const SESSION_STALE_MS: u64 = 5000;

/// Outgoing datagrams allowed per tick and session.
pub const DEFAULT_PACKET_LIMIT: usize = 120;

/// Outgoing datagrams allowed per tick across all sessions.
pub const DEFAULT_GLOBAL_PACKET_LIMIT: usize = 100000;

/// Offline handshake packets are retried this often, in milliseconds.
pub const TIME_BETWEEN_SEND_CONNECTION_ATTEMPTS_MS: u64 = 1000;

/// Offline handshake attempts before giving up.
pub const MAXIMUM_CONNECTION_ATTEMPTS: usize = 10;

/// Largest negotiable MTU.
pub const MAXIMUM_MTU_SIZE: u16 = 1400;

/// Smallest negotiable MTU.
pub const MINIMUM_MTU_SIZE: u16 = 576;

/// Largest serialized message one send may queue: at the smallest MTU this
/// splits into at most 1930 fragments, within the reassembly cap of 2048.
pub const MAXIMUM_MESSAGE_SIZE: usize = 0x100000;

/// Flags of an ACK datagram: valid and ACK bits together.
pub const FLAGS_ACK_DATAGRAM: u8 = 0xC0;

/// Flags of a NACK datagram: valid and NACK bits together.
pub const FLAGS_NACK_DATAGRAM: u8 = 0xA0;

/// One reliable datagram awaiting acknowledgement.
pub struct SentDatagram {
    pub seq: u32,
    pub body: Vec<u8>,
    pub send_time: u64,
    pub next_send: u64,
}

/// Whether `s` lies inside the inclusive range, walking forward from its
/// start.
pub open spec fn in_range(r: SequenceRange, s: u32) -> bool {
    wrap_dist(s, r.start) <= wrap_dist(r.end, r.start)
}

/// Whether any of the ranges holds `s`.
pub open spec fn covered(rs: Seq<SequenceRange>, s: u32) -> bool {
    exists|k: int| 0 <= k < rs.len() && in_range(#[trigger] rs[k], s)
}

/// Whether some tracked datagram carries the sequence.
pub open spec fn has_seq(s: Seq<SentDatagram>, seq: u32) -> bool {
    exists|k: int| 0 <= k < s.len() && (#[trigger] s[k]).seq == seq
}

/// Whether the tracked set holds this very entry.
pub open spec fn entry_in(s: Seq<SentDatagram>, e: SentDatagram) -> bool {
    exists|k: int| 0 <= k < s.len() && s[k] == e
}

/// Tests a sequence against one range.
pub fn range_contains(r: &SequenceRange, s: u32) -> (b: bool)
    requires
        r.wf(),
        s < 0x1000000,
    ensures
        b == in_range(*r, s),
{
    let ds = ((s % 0x1000000) + 0x1000000 - (r.start % 0x1000000)) % 0x1000000;
    let de = ((r.end % 0x1000000) + 0x1000000 - (r.start % 0x1000000)) % 0x1000000;
    ds <= de
}

/// Tests a sequence against a list of ranges.
pub fn ranges_contain(rs: &Vec<SequenceRange>, s: u32) -> (b: bool)
    requires
        forall|k: int| 0 <= k < rs@.len() ==> (#[trigger] rs@[k]).wf(),
        s < 0x1000000,
    ensures
        b == covered(rs@, s),
{
    let mut k: usize = 0;
    while k < rs.len()
        invariant
            k <= rs@.len(),
            s < 0x1000000,
            forall|q: int| 0 <= q < rs@.len() ==> (#[trigger] rs@[q]).wf(),
            forall|q: int| 0 <= q < k ==> !in_range(#[trigger] rs@[q], s),
        decreases rs@.len() - k,
    {
        let r = rs[k];
        if range_contains(&r, s) {
            return true;
        }
        k = k + 1;
    }
    false
}

/// The per-peer session.
pub struct Session {
    pub state: ConnState,
    pub offline: OfflineState,
    pub peer: RakAddr,
    pub mtu: u16,
    pub guid: u64,
    pub remote_guid: u64,
    pub send_seq: u32,
    pub next_reliable: u32,
    pub next_split_id: u16,
    pub order_write: Vec<u32>,
    pub seq_write: Vec<u32>,
    pub recv_high: Option<u32>,
    pub dup: DuplicateWindow,
    pub channels: Vec<OrderingChannel>,
    pub splits: SplitAssembler,
    pub queued: Vec<Vec<EncapsulatedPacket>>,
    pub sent: Vec<SentDatagram>,
    pub acks: Vec<SequenceRange>,
    pub nacks: Vec<SequenceRange>,
    pub incoming_acks: Vec<SequenceRange>,
    pub incoming_naks: Vec<SequenceRange>,
    pub window: SlidingWindow,
    pub last_activity: u64,
    pub last_ping: u64,
    pub last_disconnect: Option<DisconnectReason>,
}

impl Session {
    /// Everything the invariant asks besides the four priority queues.
    pub open spec fn wf_core(self) -> bool {
        &&& self.send_seq < 0x1000000
        &&& self.next_reliable < 0x1000000
        &&& self.order_write@.len() == ORDERING_CHANNEL_COUNT
        &&& forall|k: int| 0 <= k < self.order_write@.len() ==> (#[trigger] self.order_write@[k]) < 0x1000000
        &&& self.seq_write@.len() == ORDERING_CHANNEL_COUNT
        &&& forall|k: int| 0 <= k < self.seq_write@.len() ==> (#[trigger] self.seq_write@[k]) < 0x1000000
        &&& (self.recv_high matches Some(h) ==> h < 0x1000000)
        &&& self.dup.wf()
        &&& self.channels@.len() == ORDERING_CHANNEL_COUNT
        &&& forall|k: int| 0 <= k < self.channels@.len() ==> (#[trigger] self.channels@[k]).wf()
        &&& self.splits.wf()
        &&& self.window.wf()
        &&& forall|k: int| 0 <= k < self.sent@.len() ==> (#[trigger] self.sent@[k]).seq < 0x1000000
        &&& forall|k1: int, k2: int|
            0 <= k1 < k2 < self.sent@.len() ==> (#[trigger] self.sent@[k1]).seq != (
            #[trigger] self.sent@[k2]).seq
        &&& forall|k: int| 0 <= k < self.acks@.len() ==> (#[trigger] self.acks@[k]).wf()
        &&& forall|k: int| 0 <= k < self.nacks@.len() ==> (#[trigger] self.nacks@[k]).wf()
        &&& forall|k: int| 0 <= k < self.incoming_acks@.len() ==> (#[trigger] self.incoming_acks@[k]).wf()
        &&& forall|k: int| 0 <= k < self.incoming_naks@.len() ==> (#[trigger] self.incoming_naks@[k]).wf()
        &&& MINIMUM_MTU_SIZE <= self.mtu <= MAXIMUM_MTU_SIZE
    }

    /// A frame the session may queue: well formed and small enough that it
    /// fits one datagram within the MTU, past both headers.
    pub open spec fn frame_fits(mtu: u16, f: EncapsulatedPacket) -> bool {
        &&& f@.wf()
        &&& crate::frame::enc_frame(f@).len() + RAKNET_DATAGRAM_HEADER_SIZE + UDP_HEADER_SIZE
            <= mtu
    }

    pub open spec fn wf(self) -> bool {
        &&& self.wf_core()
        &&& self.queued@.len() == 4
        &&& forall|p: int, k: int|
            0 <= p < 4 && 0 <= k < self.queued@[p]@.len() ==> Session::frame_fits(
                self.mtu,
                #[trigger] self.queued@[p]@[k],
            )
    }

    /// A fresh session in the unconnected state.
    pub fn new(mtu: u16, guid: u64, peer: RakAddr, now: u64) -> (r: Session)
        requires
            MINIMUM_MTU_SIZE <= mtu <= MAXIMUM_MTU_SIZE,
        ensures
            r.wf(),
            r.state == ConnState::Unconnected,
            r.mtu == mtu,
            r.peer == peer,
            r.sent@.len() == 0,
            r.send_seq == 0,
            r.next_reliable == 0,
            r.last_activity == now,
            r.last_disconnect is None,
    {
        let mut order_write: Vec<u32> = Vec::new();
        let mut seq_write: Vec<u32> = Vec::new();
        let mut channels: Vec<OrderingChannel> = Vec::new();
        let mut k: usize = 0;
        while k < ORDERING_CHANNEL_COUNT
            invariant
                k <= ORDERING_CHANNEL_COUNT,
                order_write@.len() == k,
                seq_write@.len() == k,
                channels@.len() == k,
                forall|q: int| 0 <= q < k ==> (#[trigger] order_write@[q]) < 0x1000000,
                forall|q: int| 0 <= q < k ==> (#[trigger] seq_write@[q]) < 0x1000000,
                forall|q: int| 0 <= q < k ==> (#[trigger] channels@[q]).wf(),
            decreases ORDERING_CHANNEL_COUNT - k,
        {
            order_write.push(0);
            seq_write.push(0);
            channels.push(OrderingChannel::new());
            k = k + 1;
        }
        let mut queued: Vec<Vec<EncapsulatedPacket>> = Vec::new();
        queued.push(Vec::new());
        queued.push(Vec::new());
        queued.push(Vec::new());
        queued.push(Vec::new());
        Session {
            state: ConnState::Unconnected,
            offline: OfflineState::Handshake1,
            peer,
            mtu,
            guid,
            remote_guid: 0,
            send_seq: 0,
            next_reliable: 0,
            next_split_id: 0,
            order_write,
            seq_write,
            recv_high: None,
            dup: DuplicateWindow::new(),
            channels,
            splits: SplitAssembler::new(),
            queued,
            sent: Vec::new(),
            acks: Vec::new(),
            nacks: Vec::new(),
            incoming_acks: Vec::new(),
            incoming_naks: Vec::new(),
            window: SlidingWindow::new(),
            last_activity: now,
            last_ping: now,
            last_disconnect: None,
        }
    }

    /// Queues an arrived ACK payload for processing at the next flush.
    pub fn handle_ack_payload(&mut self, ranges: Vec<SequenceRange>)
        requires
            old(self).wf(),
            forall|k: int| 0 <= k < ranges@.len() ==> (#[trigger] ranges@[k]).wf(),
        ensures
            final(self).wf(),
            final(self).incoming_acks@ == old(self).incoming_acks@ + ranges@,
            *final(self) == (Session { incoming_acks: final(self).incoming_acks, ..*old(self) }),
    {
        let mut rs = ranges;
        let ghost rsv = rs@;
        let mut k: usize = 0;
        proof {
            assert(self.incoming_acks@ + rsv.take(0) =~= self.incoming_acks@);
        }
        let ghost base = self.incoming_acks@;
        while k < rs.len()
            invariant
                k <= rsv.len(),
                rs@ == rsv,
                forall|q: int| 0 <= q < rsv.len() ==> (#[trigger] rsv[q]).wf(),
                self.incoming_acks@ == base + rsv.take(k as int),
                forall|q: int| 0 <= q < base.len() ==> (#[trigger] base[q]).wf(),
                *self == (Session { incoming_acks: self.incoming_acks, ..*old(self) }),
            decreases rsv.len() - k,
        {
            let r = rs[k];
            self.incoming_acks.push(r);
            proof {
                assert(self.incoming_acks@ =~= base + rsv.take(k as int + 1));
            }
            k = k + 1;
        }
        proof {
            assert(rsv.take(rsv.len() as int) =~= rsv);
        }
    }

    /// Queues an arrived NACK payload for processing at the next flush.
    pub fn handle_nack_payload(&mut self, ranges: Vec<SequenceRange>)
        requires
            old(self).wf(),
            forall|k: int| 0 <= k < ranges@.len() ==> (#[trigger] ranges@[k]).wf(),
        ensures
            final(self).wf(),
            final(self).incoming_naks@ == old(self).incoming_naks@ + ranges@,
            *final(self) == (Session { incoming_naks: final(self).incoming_naks, ..*old(self) }),
    {
        let mut rs = ranges;
        let ghost rsv = rs@;
        let mut k: usize = 0;
        proof {
            assert(self.incoming_naks@ + rsv.take(0) =~= self.incoming_naks@);
        }
        let ghost base = self.incoming_naks@;
        while k < rs.len()
            invariant
                k <= rsv.len(),
                rs@ == rsv,
                forall|q: int| 0 <= q < rsv.len() ==> (#[trigger] rsv[q]).wf(),
                self.incoming_naks@ == base + rsv.take(k as int),
                forall|q: int| 0 <= q < base.len() ==> (#[trigger] base[q]).wf(),
                *self == (Session { incoming_naks: self.incoming_naks, ..*old(self) }),
            decreases rsv.len() - k,
        {
            let r = rs[k];
            self.incoming_naks.push(r);
            proof {
                assert(self.incoming_naks@ =~= base + rsv.take(k as int + 1));
            }
            k = k + 1;
        }
        proof {
            assert(rsv.take(rsv.len() as int) =~= rsv);
        }
    }

    /// Applies the queued incoming ACK ranges: every tracked datagram whose
    /// sequence any range holds leaves the retransmit set and feeds the
    /// congestion window an RTT sample; the others stay, unchanged. After
    /// ACKs covering everything that was tracked, nothing remains tracked.
    pub fn process_incoming_acks(&mut self, now: u64)
        requires
            old(self).wf(),
        ensures
            final(self).wf(),
            final(self).incoming_acks@.len() == 0,
            forall|k: int|
                0 <= k < final(self).sent@.len() ==> !covered(
                    old(self).incoming_acks@,
                    (#[trigger] final(self).sent@[k]).seq,
                ),
            forall|k: int|
                0 <= k < final(self).sent@.len() ==> entry_in(
                    old(self).sent@,
                    #[trigger] final(self).sent@[k],
                ),
            forall|j: int|
                0 <= j < old(self).sent@.len() && !covered(
                    old(self).incoming_acks@,
                    (#[trigger] old(self).sent@[j]).seq,
                ) ==> entry_in(final(self).sent@, old(self).sent@[j]),
            final(self).state == old(self).state,
            final(self).queued@ == old(self).queued@,
            final(self).incoming_naks@ == old(self).incoming_naks@,
            final(self).acks@ == old(self).acks@,
            final(self).nacks@ == old(self).nacks@,
            final(self).mtu == old(self).mtu,
            final(self).send_seq == old(self).send_seq,
            old(self).incoming_acks@.len() == 0 ==> final(self).window == old(self).window
                && final(self).sent@ == old(self).sent@,
    {
        let mut ranges: Vec<SequenceRange> = Vec::new();
        core::mem::swap(&mut ranges, &mut self.incoming_acks);
        let mut drained: Vec<SentDatagram> = Vec::new();
        core::mem::swap(&mut drained, &mut self.sent);
        let ghost sent0 = drained@;
        let mut kept: Vec<SentDatagram> = Vec::new();
        let mut k: usize = 0;
        let n = drained.len();
        proof {
            assert(drained@ =~= sent0.skip(0));
        }
        while k < n
            invariant
                k <= n,
                n == sent0.len(),
                drained@ == sent0.skip(k as int),
                self.sent@.len() == 0,
                self.incoming_acks@.len() == 0,
                *self == (Session {
                    window: self.window,
                    sent: self.sent,
                    incoming_acks: self.incoming_acks,
                    ..*old(self)
                }),
                forall|q: int| 0 <= q < ranges@.len() ==> (#[trigger] ranges@[q]).wf(),
                forall|q: int| 0 <= q < sent0.len() ==> (#[trigger] sent0[q]).seq < 0x1000000,
                forall|q1: int, q2: int|
                    0 <= q1 < q2 < sent0.len() ==> (#[trigger] sent0[q1]).seq != (
                    #[trigger] sent0[q2]).seq,
                forall|q: int|
                    0 <= q < kept@.len() ==> !covered(ranges@, (#[trigger] kept@[q]).seq),
                forall|q: int|
                    0 <= q < kept@.len() ==> entry_in(sent0, #[trigger] kept@[q]) && kept@[q].seq
                        < 0x1000000,
                forall|j: int|
                    0 <= j < k && !covered(ranges@, (#[trigger] sent0[j]).seq) ==> entry_in(
                        kept@,
                        sent0[j],
                    ),
                forall|q1: int, q2: int|
                    0 <= q1 < q2 < kept@.len() ==> (#[trigger] kept@[q1]).seq != (
                    #[trigger] kept@[q2]).seq,
                forall|q: int, j: int|
                    0 <= q < kept@.len() && k <= j < sent0.len() ==> (#[trigger] kept@[q]).seq
                        != (#[trigger] sent0[j]).seq,
                self.window.wf(),
                ranges@.len() == 0 ==> self.window == old(self).window && kept@ == sent0.take(
                    k as int,
                ),
            decreases n - k,
        {
            proof {
                assert(drained@[0] == sent0[k as int]);
                assert(drained@.remove(0) =~= sent0.skip(k as int + 1));
            }
            let e = drained.remove(0);
            let ghost kept_before = kept@;
            let hit = ranges_contain(&ranges, e.seq);
            if hit {
                let sample = if now >= e.send_time {
                    now - e.send_time
                } else {
                    0
                };
                self.window.on_ack(sample);
            } else {
                kept.push(e);
            }
            proof {
                if !hit {
                    assert(kept@[kept@.len() - 1] == sent0[k as int]);
                    assert(entry_in(kept@, sent0[k as int]));
                }
                assert forall|j: int|
                    0 <= j < k + 1 && !covered(ranges@, (#[trigger] sent0[j]).seq) implies entry_in(
                    kept@,
                    sent0[j],
                ) by {
                    if j < k {
                        let w = choose|w: int| 0 <= w < kept_before.len() && kept_before[w] == sent0[j];
                        assert(kept@[w] == sent0[j]);
                    }
                }
                assert forall|q: int| 0 <= q < kept@.len() implies entry_in(
                    sent0,
                    #[trigger] kept@[q],
                ) by {
                    if q < kept_before.len() {
                        let w = choose|w: int| 0 <= w < sent0.len() && sent0[w] == kept_before[q];
                        assert(kept@[q] == kept_before[q]);
                        assert(sent0[w] == kept@[q]);
                    } else {
                        assert(kept@[q] == sent0[k as int]);
                    }
                }
            }
            k = k + 1;
        }
        proof {
            assert(sent0.skip(n as int).len() == 0);
        }
        self.sent = kept;
    }
    /// Applies the queued incoming NACK ranges: every tracked datagram whose
    /// sequence any range holds is rescheduled to resend now, and the
    /// congestion window shrinks once per such datagram; everything else
    /// stays as it was.
    pub fn process_incoming_naks(&mut self, now: u64)
        requires
            old(self).wf(),
        ensures
            final(self).wf(),
            final(self).incoming_naks@.len() == 0,
            final(self).sent@.len() == old(self).sent@.len(),
            forall|k: int|
                0 <= k < final(self).sent@.len() ==> {
                    let e0 = old(self).sent@[k];
                    let e1 = #[trigger] final(self).sent@[k];
                    &&& e1.seq == e0.seq
                    &&& e1.body@ == e0.body@
                    &&& e1.send_time == e0.send_time
                    &&& e1.next_send == if covered(old(self).incoming_naks@, e0.seq) {
                        now
                    } else {
                        e0.next_send
                    }
                },
            final(self).state == old(self).state,
            final(self).queued@ == old(self).queued@,
            final(self).incoming_acks@ == old(self).incoming_acks@,
            final(self).acks@ == old(self).acks@,
            final(self).nacks@ == old(self).nacks@,
            final(self).mtu == old(self).mtu,
            final(self).send_seq == old(self).send_seq,
            old(self).incoming_naks@.len() == 0 ==> final(self).window == old(self).window
                && final(self).sent@ == old(self).sent@,
    {
        let mut ranges: Vec<SequenceRange> = Vec::new();
        core::mem::swap(&mut ranges, &mut self.incoming_naks);
        let mut drained: Vec<SentDatagram> = Vec::new();
        core::mem::swap(&mut drained, &mut self.sent);
        let ghost sent0 = drained@;
        let mut kept: Vec<SentDatagram> = Vec::new();
        let mut k: usize = 0;
        let n = drained.len();
        proof {
            assert(drained@ =~= sent0.skip(0));
        }
        while k < n
            invariant
                k <= n,
                n == sent0.len(),
                drained@ == sent0.skip(k as int),
                kept@.len() == k,
                self.sent@.len() == 0,
                self.incoming_naks@.len() == 0,
                *self == (Session {
                    window: self.window,
                    sent: self.sent,
                    incoming_naks: self.incoming_naks,
                    ..*old(self)
                }),
                forall|q: int| 0 <= q < ranges@.len() ==> (#[trigger] ranges@[q]).wf(),
                forall|q: int| 0 <= q < sent0.len() ==> (#[trigger] sent0[q]).seq < 0x1000000,
                forall|q1: int, q2: int|
                    0 <= q1 < q2 < sent0.len() ==> (#[trigger] sent0[q1]).seq != (
                    #[trigger] sent0[q2]).seq,
                forall|q: int|
                    0 <= q < k ==> {
                        let e0 = sent0[q];
                        let e1 = #[trigger] kept@[q];
                        &&& e1.seq == e0.seq
                        &&& e1.body@ == e0.body@
                        &&& e1.send_time == e0.send_time
                        &&& e1.next_send == if covered(ranges@, e0.seq) {
                            now
                        } else {
                            e0.next_send
                        }
                    },
                self.window.wf(),
                ranges@.len() == 0 ==> self.window == old(self).window && kept@ == sent0.take(
                    k as int,
                ),
            decreases n - k,
        {
            proof {
                assert(drained@[0] == sent0[k as int]);
                assert(drained@.remove(0) =~= sent0.skip(k as int + 1));
            }
            let mut e = drained.remove(0);
            if ranges_contain(&ranges, e.seq) {
                e.next_send = now;
                self.window.on_nak();
            }
            kept.push(e);
            k = k + 1;
        }
        self.sent = kept;
        proof {
            assert forall|q1: int, q2: int|
                0 <= q1 < q2 < self.sent@.len() implies (#[trigger] self.sent@[q1]).seq != (
            #[trigger] self.sent@[q2]).seq by {
                assert(self.sent@[q1].seq == sent0[q1].seq);
                assert(self.sent@[q2].seq == sent0[q2].seq);
            }
        }
    }

    /// Applies the queued incoming ACK and NACK ranges, in that order.
    pub fn process_incoming_acks_naks(&mut self, now: u64)
        requires
            old(self).wf(),
        ensures
            final(self).wf(),
            final(self).incoming_acks@.len() == 0,
            final(self).incoming_naks@.len() == 0,
            final(self).state == old(self).state,
            final(self).queued@ == old(self).queued@,
            final(self).acks@ == old(self).acks@,
            final(self).nacks@ == old(self).nacks@,
            final(self).send_seq == old(self).send_seq,
            final(self).mtu == old(self).mtu,
            old(self).incoming_acks@.len() == 0 && old(self).incoming_naks@.len() == 0 ==> final(self).window == old(self).window && final(self).sent@ == old(self).sent@,
    {
        self.process_incoming_acks(now);
        self.process_incoming_naks(now);
    }

    /// How receiving datagram sequence `seq` at `now` moves the ACK/NACK
    /// bookkeeping: the sequence is queued for the next outgoing ACK; a jump
    /// past the high-watermark queues the skipped span for the next outgoing
    /// NACK; the watermark advances to every newest sequence; nothing else
    /// changes but the activity clock.
    pub open spec fn note_step(a: Session, b: Session, seq: u32, now: u64) -> bool {
        &&& b.acks@ == a.acks@.push(SequenceRange { start: seq, end: seq })
        &&& match a.recv_high {
            None => b.recv_high == Some(seq) && b.nacks@ == a.nacks@,
            Some(h) => {
                if crate::sequence::seq_after(seq, h) {
                    &&& b.recv_high == Some(seq)
                    &&& (if wrap_dist(seq, h) > 1 {
                        b.nacks@ == a.nacks@.push(
                            SequenceRange {
                                start: ((h + 1) % 0x1000000) as u32,
                                end: ((seq % 0x1000000 + 0xffffff) % 0x1000000) as u32,
                            },
                        )
                    } else {
                        b.nacks@ == a.nacks@
                    })
                } else {
                    b.recv_high == a.recv_high && b.nacks@ == a.nacks@
                }
            },
        }
        &&& b.last_activity == now
        &&& b == (Session {
            acks: b.acks,
            nacks: b.nacks,
            recv_high: b.recv_high,
            last_activity: b.last_activity,
            ..a
        })
    }

    /// Accounts for one received datagram sequence, as `note_step` says.
    pub fn note_received(&mut self, seq: u32, now: u64)
        requires
            old(self).wf(),
            seq < 0x1000000,
        ensures
            final(self).wf(),
            Session::note_step(*old(self), *final(self), seq, now),
    {
        self.acks.push(SequenceRange { start: seq, end: seq });
        self.last_activity = now;
        match self.recv_high {
            None => {
                self.recv_high = Some(seq);
            },
            Some(h) => {
                let d = ((seq % 0x1000000) + 0x1000000 - (h % 0x1000000)) % 0x1000000;
                if 0 < d && d < 0x800000 {
                    if d > 1 {
                        self.nacks.push(
                            SequenceRange {
                                start: (h + 1) % 0x1000000,
                                end: (seq % 0x1000000 + 0xffffff) % 0x1000000,
                            },
                        );
                    }
                    self.recv_high = Some(seq);
                }
            },
        }
    }

    /// What delivering a reassembled payload yields: the decoded packet when
    /// the leading byte is a known control id or user data, and otherwise the
    /// unknown leading byte wrapped as user data with the rest of the bytes.
    pub open spec fn delivered_packet(payload: Seq<u8>, p: RaknetPacket) -> bool {
        ||| exists|end: int| crate::packets::packet_decode_ok(payload, 0, p, end)
        ||| (payload.len() > 0 && payload[0] < 0x80 && !crate::packets::is_known_control_id(
            payload[0],
        ) && (p matches RaknetPacket::UserData { id, payload: body } && id == payload[0] && body@
            == payload.subrange(1, payload.len() as int)))
    }

    /// Decodes one reassembled payload into a packet and hands it out. An
    /// unknown leading byte is delivered as user data, as the engine treats
    /// any unrecognised id as application traffic; only an empty payload or a
    /// known control packet whose body will not decode is an error.
    fn decode_and_push(payload: Vec<u8>, out: &mut Vec<RaknetPacket>) -> (r: Result<
        (),
        DecodeError,
    >)
        ensures
            match r {
                Ok(()) => final(out)@.len() == old(out)@.len() + 1 && final(out)@.subrange(
                    0,
                    old(out)@.len() as int,
                ) == old(out)@ && Session::delivered_packet(payload@, final(out)@.last()),
                Err(e) => final(out)@ == old(out)@ && (payload@.len() == 0
                    || crate::packets::is_known_control_id(payload@[0])),
            },
    {
        let ghost out0 = out@;
        if payload.len() == 0 {
            return Err(DecodeError::UnexpectedEof);
        }
        let id = payload[0];
        if id < 0x80 && !crate::packets::is_known_control_id_exec(id) {
            let n = payload.len();
            let body = match crate::codec::read_bytes(&payload, 1, n - 1) {
                Ok((b, _)) => b,
                Err(_) => {
                    proof {
                        assert(false);
                    }
                    Vec::new()
                },
            };
            out.push(RaknetPacket::UserData { id, payload: body });
            proof {
                assert(out@.subrange(0, out0.len() as int) =~= out0);
            }
            return Ok(());
        }
        match RaknetPacket::decode(&payload, 0) {
            Ok((p, end)) => {
                let ghost pend = end as int;
                out.push(p);
                proof {
                    assert(out@.subrange(0, out0.len() as int) =~= out0);
                    assert(crate::packets::packet_decode_ok(payload@, 0, out@.last(), pend));
                }
                Ok(())
            },
            Err(e) => Err(e),
        }
    }

    /// How one assembled (non-split) frame moves the duplicate window, the
    /// ordering channels and the delivered output. A repeated reliable index
    /// delivers nothing; an unordered frame delivers its own payload; an
    /// ordered frame at the expected index releases the whole consecutive run
    /// waiting on its channel, in index order; one ahead waits; one behind is
    /// dropped. `ok` is false only where a payload failed to decode, and then
    /// nothing was appended for it.
    pub open spec fn deliver_step(
        dup0_base: u32,
        dup0_seen: Seq<bool>,
        dup1_base: u32,
        dup1_seen: Seq<bool>,
        ch0: Seq<OrderingChannel>,
        ch1: Seq<OrderingChannel>,
        f: crate::frame::FrameView,
        out0: Seq<RaknetPacket>,
        out1: Seq<RaknetPacket>,
        ok: bool,
    ) -> bool {
        let rel = f.reliability;
        if crate::reliability::spec_is_reliable(rel) && f.reliable_index is None {
            // a malformed reliable frame is dropped whole
            dup1_base == dup0_base && dup1_seen == dup0_seen && ch1 == ch0 && out1 == out0 && ok
        } else if crate::reliability::spec_is_reliable(rel) && crate::dup::spec_is_seen(
            dup0_base,
            dup0_seen,
            (f.reliable_index->Some_0 % 0x1000000) as u32,
        ) {
            // a repeat: recorded again (idempotently), delivered never again
            &&& (dup1_base, dup1_seen) == crate::dup::spec_mark(
                dup0_base,
                dup0_seen,
                (f.reliable_index->Some_0 % 0x1000000) as u32,
            )
            &&& ch1 == ch0
            &&& out1 == out0
            &&& ok
        } else {
            &&& (if crate::reliability::spec_is_reliable(rel) {
                (dup1_base, dup1_seen) == crate::dup::spec_mark(
                    dup0_base,
                    dup0_seen,
                    (f.reliable_index->Some_0 % 0x1000000) as u32,
                )
            } else {
                dup1_base == dup0_base && dup1_seen == dup0_seen
            })
            &&& (if crate::reliability::spec_is_ordered(rel) {
                if f.ordering_index is None || f.ordering_channel is None {
                    ch1 == ch0 && out1 == out0 && ok
                } else {
                    let c = f.ordering_channel->Some_0;
                    if c >= MAXIMUM_ORDERING_CHANNELS {
                        ch1 == ch0 && out1 == out0 && ok
                    } else {
                        Session::deliver_ordered_step(ch0, ch1, f, out0, out1, ok)
                    }
                }
            } else {
                &&& ch1 == ch0
                &&& (ok ==> out1.len() == out0.len() + 1 && out1.subrange(0, out0.len() as int)
                    == out0 && Session::delivered_packet(f.payload, out1.last()))
                &&& (!ok ==> out1 == out0 && (f.payload.len() == 0
                    || crate::packets::is_known_control_id(f.payload[0])))
            })
        }
    }

    /// A payload that the inbound decoder refuses: empty, or led by a known
    /// control id whose body does not parse here.
    pub open spec fn undeliverable(p: Seq<u8>) -> bool {
        p.len() == 0 || crate::packets::is_known_control_id(p[0])
    }

    /// The `w`-th payload a channel releases when the expected index arrives:
    /// the arriving frame's own payload first, then the stored run.
    pub open spec fn released_payload(
        c0: OrderingChannel,
        f: crate::frame::FrameView,
        w: int,
    ) -> Seq<u8> {
        if w == 0 {
            f.payload
        } else {
            crate::order::key_payload(c0.pending@, crate::order::wrap_add(c0.expected, w))
        }
    }

    /// The ordered arm of `deliver_step`, for a frame whose ordering fields
    /// are present and whose channel is in range.
    pub open spec fn deliver_ordered_step(
        ch0: Seq<OrderingChannel>,
        ch1: Seq<OrderingChannel>,
        f: crate::frame::FrameView,
        out0: Seq<RaknetPacket>,
        out1: Seq<RaknetPacket>,
        ok: bool,
    ) -> bool {
        let c = f.ordering_channel->Some_0;
        let oi = (f.ordering_index->Some_0 % 0x1000000) as u32;
        {
                        let c0 = ch0[c as int];
                        let c1 = ch1[c as int];
                        &&& ch1.len() == ch0.len()
                        &&& forall|j: int|
                            0 <= j < ch0.len() && j != c ==> #[trigger] ch1[j] == ch0[j]
                        &&& if oi == c0.expected {
                            let grown = crate::order::wrap_dist(c1.expected, c0.expected);
                            &&& !crate::order::has_key(c1.pending@, c1.expected)
                            &&& (ok ==> {
                                &&& out1.len() == out0.len() + grown
                                &&& grown >= 1
                                &&& out1.subrange(0, out0.len() as int) == out0
                                &&& Session::delivered_packet(f.payload, out1[out0.len() as int])
                                &&& forall|w: int|
                                    1 <= w < grown ==> Session::delivered_packet(
                                        crate::order::key_payload(
                                            c0.pending@,
                                            crate::order::wrap_add(c0.expected, w),
                                        ),
                                        #[trigger] out1[out0.len() + w],
                                    )
                            })
                            &&& (!ok ==> exists|w: int|
                                0 <= w < grown && out1.len() == out0.len() + w
                                    && Session::undeliverable(
                                    #[trigger] Session::released_payload(c0, f, w),
                                ))
                        } else if crate::sequence::seq_after(oi, c0.expected) {
                            &&& c1.expected == c0.expected
                            &&& out1 == out0
                            &&& ok
                            &&& (if crate::order::has_key(c0.pending@, oi) || c0.pending@.len()
                                >= crate::order::ORDER_BACKLOG_CAP {
                                c1.pending@ == c0.pending@
                            } else {
                                c1.pending@.len() == c0.pending@.len() + 1
                                    && c1.pending@.subrange(0, c0.pending@.len() as int)
                                    == c0.pending@ && c1.pending@.last().0 == oi
                                    && c1.pending@.last().1@ == f.payload
                            })
                        } else {
                            &&& c1.expected == c0.expected
                            &&& c1.pending@ == c0.pending@
                            &&& out1 == out0
                            &&& ok
                        }
        }
    }

    /// A delivery that stopped at the undecodable released payload number `i`
    /// satisfies the ordered step with `ok` false.
    proof fn lemma_delivery_errs(
        ch0: Seq<OrderingChannel>,
        ch1: Seq<OrderingChannel>,
        f: crate::frame::FrameView,
        out0: Seq<RaknetPacket>,
        out1: Seq<RaknetPacket>,
        c0: OrderingChannel,
        chu: int,
        i: int,
        rel0i: Seq<u8>,
    )
        requires
            f.ordering_channel is Some,
            f.ordering_index is Some,
            chu == f.ordering_channel->Some_0,
            0 <= chu < ch0.len(),
            (f.ordering_index->Some_0 % 0x1000000) as u32 == c0.expected,
            c0 == ch0[chu],
            ch1.len() == ch0.len(),
            forall|j: int| 0 <= j < ch0.len() && j != chu ==> #[trigger] ch1[j] == ch0[j],
            !crate::order::has_key(ch1[chu].pending@, ch1[chu].expected),
            0 <= i < crate::order::wrap_dist(ch1[chu].expected, c0.expected),
            out1.len() == out0.len() + i,
            i == 0 ==> rel0i == f.payload,
            i >= 1 ==> rel0i == crate::order::key_payload(
                c0.pending@,
                crate::order::wrap_add(c0.expected, i),
            ),
            rel0i.len() == 0 || crate::packets::is_known_control_id(rel0i[0]),
        ensures
            Session::deliver_ordered_step(ch0, ch1, f, out0, out1, false),
    {
        assert(Session::released_payload(c0, f, i) == rel0i);
        assert(Session::undeliverable(Session::released_payload(c0, f, i)));
    }

    /// The ordered path of delivery: pushes the frame's payload into its
    /// channel and delivers whatever the channel releases, in index order.
    #[verifier::rlimit(100)]
    #[verifier::spinoff_prover]
    fn deliver_ordered(&mut self, f: EncapsulatedPacket, out: &mut Vec<RaknetPacket>) -> (r:
        Result<(), DecodeError>)
        requires
            old(self).wf(),
            crate::reliability::spec_is_ordered(f@.reliability),
            f@.ordering_index is Some,
            f@.ordering_channel is Some,
            f@.ordering_channel->Some_0 < MAXIMUM_ORDERING_CHANNELS,
        ensures
            final(self).wf(),
            *final(self) == (Session { channels: final(self).channels, ..*old(self) }),
            Session::deliver_ordered_step(
                old(self).channels@,
                final(self).channels@,
                f@,
                old(out)@,
                final(out)@,
                r is Ok,
            ),
    {
        let ghost out0 = out@;
            let (oi, ch) = match (&f.ordering_index, &f.ordering_channel) {
                (Some(oi), Some(ch)) => (oi.0 % 0x1000000, *ch),
                _ => {
                    return Ok(());
                },
            };
            if ch >= MAXIMUM_ORDERING_CHANNELS {
                return Ok(());
            }
            let chu = ch as usize;
            let ghost c0 = self.channels@[chu as int];
            let mut channel = self.channels.remove(chu);
            let expected0 = channel.expected;
            let ghost fpv = f.payload@;
            let mut released = channel.push(oi, f.payload);
            let ghost chv = channel;
            self.channels.insert(chu, channel);
            proof {
                assert(self.channels@[chu as int] == chv);
                assert forall|k: int|
                    0 <= k < self.channels@.len() && k != chu implies (
                #[trigger] self.channels@[k]) == old(self).channels@[k] by {}
                assert forall|k: int|
                    0 <= k < self.channels@.len() implies (#[trigger] self.channels@[k]).wf() by {
                    if k != chu {
                        assert(self.channels@[k] == old(self).channels@[k]);
                    }
                }
            }
            if oi != expected0 {
                // either waiting ahead or a stale repeat: nothing released
                proof {
                    assert(released@.len() == 0);
                    let c1v = self.channels@[chu as int];
                    if crate::sequence::seq_after(oi, c0.expected) && !crate::order::has_key(
                        c0.pending@,
                        oi,
                    ) && c0.pending@.len() < crate::order::ORDER_BACKLOG_CAP {
                        assert(c1v.pending@ == c0.pending@.push((oi, f.payload)));
                        assert(c1v.pending@.subrange(0, c0.pending@.len() as int)
                            =~= c0.pending@);
                        assert(c1v.pending@.last().1@ == fpv);
                    }
                }
                return Ok(());
            }
            let ghost rel0 = released@;
            let ghost grown = rel0.len() as int;
            let total = released.len();
            proof {
                assert(grown <= c0.pending@.len() + 1);
                crate::order::lemma_wrap_dist_of_add(c0.expected, grown);
            }
            let mut i: usize = 0;
            while released.len() > 0
                invariant
                    self.wf(),
                    *self == (Session { channels: self.channels, ..*old(self) }),
                    crate::reliability::spec_is_ordered(f@.reliability),
                    f@.ordering_index is Some,
                    f@.ordering_channel is Some,
                    chu == f@.ordering_channel->Some_0,
                    chu < ORDERING_CHANNEL_COUNT,
                    oi == (f@.ordering_index->Some_0 % 0x1000000) as u32,
                    oi == c0.expected,
                    c0 == old(self).channels@[chu as int],
                    self.channels@.len() == old(self).channels@.len(),
                    forall|j: int|
                        0 <= j < self.channels@.len() && j != chu ==> #[trigger] self.channels@[j]
                            == old(self).channels@[j],
                    !crate::order::has_key(
                        self.channels@[chu as int].pending@,
                        self.channels@[chu as int].expected,
                    ),
                    grown == crate::order::wrap_dist(
                        self.channels@[chu as int].expected,
                        c0.expected,
                    ),
                    forall|w: int|
                        1 <= w < rel0.len() ==> #[trigger] rel0[w]@ == crate::order::key_payload(
                            c0.pending@,
                            crate::order::wrap_add(c0.expected, w),
                        ),
                    rel0.len() >= 1,
                    rel0[0]@ == fpv,
                    fpv == f@.payload,
                    grown == rel0.len(),
                    i + released@.len() == total,
                    total == rel0.len(),
                    forall|w: int|
                        0 <= w < released@.len() ==> #[trigger] released@[w] == rel0[i + w],
                    out@.len() == out0.len() + i,
                    out@.subrange(0, out0.len() as int) == out0,
                    out0 == old(out)@,
                    forall|w: int|
                        0 <= w < i ==> Session::delivered_packet(
                            rel0[w]@,
                            #[trigger] out@[out0.len() + w],
                        ),
                decreases released@.len(),
            {
                let ghost released_before = released@;
                let payload = released.remove(0);
                proof {
                    assert(payload == rel0[i as int]);
                    assert forall|w: int|
                        0 <= w < released@.len() implies #[trigger] released@[w] == rel0[i + 1
                        + w] by {
                        assert(released@[w] == released_before[w + 1]);
                    }
                }
                let ghost outb = out@;
                let ghost pw_snap = payload@;
                match Session::decode_and_push(payload, out) {
                    Ok(()) => {
                        proof {
                            assert(out@.subrange(0, outb.len() as int) == outb);
                            assert(out@.subrange(0, out0.len() as int) =~= out0) by {
                                assert forall|w: int|
                                    0 <= w < out0.len() implies out@[w] == out0[w] by {
                                    assert(out@.subrange(0, outb.len() as int)[w] == out@[w]);
                                    assert(outb.subrange(0, out0.len() as int)[w] == outb[w]);
                                }
                            }
                            assert(out@[out0.len() + i as int] == out@.last());
                            assert(Session::delivered_packet(rel0[i as int]@, out@[out0.len()
                                + i as int]));
                            assert forall|w: int|
                                0 <= w < i implies Session::delivered_packet(
                                rel0[w]@,
                                #[trigger] out@[out0.len() + w],
                            ) by {
                                assert(out@.subrange(0, outb.len() as int)[out0.len() + w]
                                    == out@[out0.len() + w]);
                            }
                        }
                    },
                    Err(e) => {
                        proof {
                            assert(out@ == outb);
                            assert(pw_snap == rel0[i as int]@);
                            Session::lemma_delivery_errs(
                                old(self).channels@,
                                self.channels@,
                                f@,
                                out0,
                                out@,
                                c0,
                                chu as int,
                                i as int,
                                pw_snap,
                            );
                        }
                        return Err(e);
                    },
                }
                i = i + 1;
            }
            proof {
                assert(i == rel0.len());
                assert(out@.len() == out0.len() + grown);
                assert(Session::delivered_packet(rel0[0]@, out@[out0.len() as int + 0]));
                assert(Session::delivered_packet(rel0[0]@, out@[out0.len() as int]));
                assert(rel0[0]@ == fpv);
                assert forall|w: int|
                    1 <= w < grown implies Session::delivered_packet(
                    crate::order::key_payload(
                        c0.pending@,
                        crate::order::wrap_add(c0.expected, w),
                    ),
                    #[trigger] out@[out0.len() + w],
                ) by {
                    assert(Session::delivered_packet(rel0[w]@, out@[out0.len() + w]));
                    assert(rel0[w]@ == crate::order::key_payload(
                        c0.pending@,
                        crate::order::wrap_add(c0.expected, w),
                    ));
                }
            }
            Ok(())
    }

    /// Runs one assembled frame through duplicate suppression and ordering,
    /// delivering exactly what `deliver_step` says.
    #[verifier::rlimit(100)]
    #[verifier::spinoff_prover]
    fn deliver_assembled(&mut self, f: EncapsulatedPacket, out: &mut Vec<RaknetPacket>) -> (r:
        Result<(), DecodeError>)
        requires
            old(self).wf(),
        ensures
            final(self).wf(),
            *final(self) == (Session {
                dup: final(self).dup,
                channels: final(self).channels,
                ..*old(self)
            }),
            Session::deliver_step(
                old(self).dup.base,
                old(self).dup.seen@,
                final(self).dup.base,
                final(self).dup.seen@,
                old(self).channels@,
                final(self).channels@,
                f@,
                old(out)@,
                final(out)@,
                r is Ok,
            ),
    {
        let ghost out0 = out@;
        if f.reliability.is_reliable() {
            let ri = match &f.reliable_index {
                Some(ri) => ri.0 % 0x1000000,
                None => {
                    return Ok(());
                },
            };
            if !self.dup.check_and_mark(ri) {
                return Ok(());
            }
        }
        if f.reliability.is_ordered() {
            let has_fields = match (&f.ordering_index, &f.ordering_channel) {
                (Some(_), Some(_)) => true,
                _ => false,
            };
            if !has_fields {
                return Ok(());
            }
            let ch = match &f.ordering_channel {
                Some(c) => *c,
                None => 0,
            };
            if ch >= MAXIMUM_ORDERING_CHANNELS {
                return Ok(());
            }
            self.deliver_ordered(f, out)
        } else {
            let ghost outb = out@;
            let r = Session::decode_and_push(f.payload, out);
            proof {
                if r is Ok {
                    assert(out@.last() == out@[out0.len() as int]);
                }
            }
            r
        }
    }

    /// The view of an optional sequence number.
    pub open spec fn seq_opt(o: Option<Sequence24>) -> Option<u32> {
        match o {
            Some(x) => Some(x.0),
            None => None,
        }
    }

    /// Nothing moved: the delivery state and the output are as they were.
    pub open spec fn untouched(a: Session, b: Session, out0: Seq<RaknetPacket>, out1: Seq<
        RaknetPacket,
    >) -> bool {
        &&& b.dup.base == a.dup.base
        &&& b.dup.seen@ == a.dup.seen@
        &&& b.channels@ == a.channels@
        &&& out1 == out0
    }

    /// Feeds one arrived encapsulated packet through reassembly, then through
    /// duplicate suppression and ordering. A frame that is not split skips
    /// reassembly and takes the delivery step directly. A fragment takes the
    /// reassembly step `SplitAssembler::add` specifies — dropped when
    /// impossible or repeated, stored when its message is still incomplete —
    /// and delivers nothing then; the fragment that completes its message
    /// removes the entry and the joined message takes the same delivery step
    /// under the metadata stored with the entry.
    pub fn handle_encapsulated(
        &mut self,
        frame: EncapsulatedPacket,
        now: u64,
        out: &mut Vec<RaknetPacket>,
    ) -> (r: Result<(), DecodeError>)
        requires
            old(self).wf(),
            frame@.wf(),
        ensures
            final(self).wf(),
            *final(self) == (Session {
                dup: final(self).dup,
                channels: final(self).channels,
                splits: final(self).splits,
                ..*old(self)
            }),
            !frame.is_split ==> final(self).splits.entries@ == old(self).splits.entries@
                && Session::deliver_step(
                old(self).dup.base,
                old(self).dup.seen@,
                final(self).dup.base,
                final(self).dup.seen@,
                old(self).channels@,
                final(self).channels@,
                frame@,
                old(out)@,
                final(out)@,
                r is Ok,
            ),
            frame.is_split ==> {
                let si = frame.split->Some_0;
                let es0 = old(self).splits.entries@;
                let es1 = final(self).splits.entries@;
                let j = SplitAssembler::spec_find(es0, si.id);
                if si.count == 0 || si.count > crate::split::MAX_SPLIT_COUNT || si.index
                    >= si.count {
                    // an impossible fragment is dropped whole
                    es1 == es0 && Session::untouched(*old(self), *final(self), old(out)@, final(out)@)
                        && r is Ok
                } else if j < 0 {
                    if si.count == 1 {
                        // a one-fragment message completes at once
                        es1 == es0 && Session::deliver_step(
                            old(self).dup.base,
                            old(self).dup.seen@,
                            final(self).dup.base,
                            final(self).dup.seen@,
                            old(self).channels@,
                            final(self).channels@,
                            (crate::frame::FrameView {
                                is_split: false,
                                split: None,
                                ..frame@
                            }),
                            old(out)@,
                            final(out)@,
                            r is Ok,
                        )
                    } else {
                        // first fragment of a new message: stored, nothing out
                        &&& es1.len() == es0.len() + 1
                        &&& es1.subrange(0, es0.len() as int) == es0
                        &&& es1.last().id == si.id
                        &&& es1.last().count == si.count
                        &&& es1.last().received == 1
                        &&& es1.last().first_arrival == now
                        &&& es1.last().slots@.len() == si.count
                        &&& (es1.last().slots@[si.index as int] matches Some(c) && c@
                            == frame.payload@)
                        &&& Session::untouched(*old(self), *final(self), old(out)@, final(out)@)
                        &&& r is Ok
                    }
                } else {
                    let e = es0[j];
                    if si.index >= e.count || e.slots@[si.index as int] is Some {
                        // a repeated or misfitting fragment is dropped
                        es1 == es0 && Session::untouched(*old(self), *final(self), old(out)@, final(out)@)
                            && r is Ok
                    } else if e.received + 1 == e.count {
                        // completion: the entry leaves and the joined message
                        // takes the delivery step under the stored metadata
                        &&& es1 == es0.remove(j)
                        &&& exists|g: crate::frame::FrameView|
                            {
                                &&& (#[trigger] g.payload) == crate::split::concat_slots(
                                    e.slots@.update(si.index as int, Some(frame.payload)),
                                )
                                &&& !g.is_split
                                &&& g.split is None
                                &&& g.reliability == e.reliability
                                &&& g.reliable_index == Session::seq_opt(e.reliable_index)
                                &&& g.sequence_index is None
                                &&& g.ordering_index == Session::seq_opt(e.ordering_index)
                                &&& g.ordering_channel == e.ordering_channel
                                &&& Session::deliver_step(
                                    old(self).dup.base,
                                    old(self).dup.seen@,
                                    final(self).dup.base,
                                    final(self).dup.seen@,
                                    old(self).channels@,
                                    final(self).channels@,
                                    g,
                                    old(out)@,
                                    final(out)@,
                                    r is Ok,
                                )
                            }
                    } else {
                        // a fresh fragment of an incomplete message: stored
                        &&& es1.len() == es0.len()
                        &&& (forall|q: int|
                            0 <= q < es1.len() && q != j ==> #[trigger] es1[q] == es0[q])
                        &&& es1[j].id == e.id
                        &&& es1[j].count == e.count
                        &&& es1[j].received == e.received + 1
                        &&& es1[j].slots@ == e.slots@.update(si.index as int, Some(frame.payload))
                        &&& Session::untouched(*old(self), *final(self), old(out)@, final(out)@)
                        &&& r is Ok
                    }
                }
            },
    {
        let ghost frame_snap = frame;
        let assembled = self.splits.add(frame, now);
        let f = match assembled {
            None => {
                return Ok(());
            },
            Some(f) => f,
        };
        proof {
            assert(f@ == frame@ || frame.is_split);
        }
        let ghost fv = f@;
        let r = self.deliver_assembled(f, out);
        proof {
            if frame.is_split {
                assert(fv.payload == fv.payload);
            }
        }
        r
    }

    /// Handles one arrived UDP payload. A datagram without the valid bit is
    /// dropped silently. An ACK or NACK datagram queues exactly its decoded
    /// ranges for processing at the next flush. A data datagram is accounted
    /// per `note_step` under its sequence number, and each of its frames runs
    /// through reassembly, duplicate suppression and ordering; everything
    /// deliverable comes back, in order. An error leaves the session
    /// untouched unless a frame payload failed to decode mid-delivery.
    pub fn handle_datagram(&mut self, buf: &Vec<u8>, now: u64) -> (r: Result<
        Vec<RaknetPacket>,
        DecodeError,
    >)
        requires
            old(self).wf(),
        ensures
            final(self).wf(),
            final(self).state == old(self).state,
            final(self).queued@ == old(self).queued@,
            match r {
                Err(e) => {
                    ||| (dec_dgram_header(buf@, 0) == Err::<(DatagramHeader, int), _>(e) && *final(self) == *old(self))
                    ||| (dec_dgram_header(buf@, 0) matches Ok((h, p)) && h.flags / 128 % 2 == 1
                        && h.flags / 64 % 2 == 1 && dec_acklist(buf@, p) == Err::<
                        (Seq<SequenceRange>, int),
                        _,
                    >(e) && *final(self) == *old(self))
                    ||| (dec_dgram_header(buf@, 0) matches Ok((h, p)) && h.flags / 128 % 2 == 1
                        && h.flags / 64 % 2 == 0 && h.flags / 32 % 2 == 1 && dec_acklist(buf@, p)
                        == Err::<(Seq<SequenceRange>, int), _>(e) && *final(self) == *old(self))
                    ||| (dec_dgram_header(buf@, 0) matches Ok((h, p)) && h.flags / 128 % 2 == 1
                        && h.flags / 64 % 2 == 0 && h.flags / 32 % 2 == 0 && crate::datagram::dec_frames(
                        buf@,
                        p,
                    ) == Err::<Seq<crate::frame::FrameView>, _>(e) && *final(self) == *old(self))
                    ||| (dec_dgram_header(buf@, 0) matches Ok((h, p)) && h.flags / 128 % 2 == 1
                        && h.flags / 64 % 2 == 0 && h.flags / 32 % 2 == 0 && crate::datagram::dec_frames(
                        buf@,
                        p,
                    ) is Ok && (exists|mid: Session|
                        #[trigger] Session::note_step(
                            *old(self),
                            mid,
                            (h.sequence.0 % 0x1000000) as u32,
                            now,
                        ) && *final(self) == (Session {
                            dup: final(self).dup,
                            channels: final(self).channels,
                            splits: final(self).splits,
                            ..mid
                        })))
                },
                Ok(out) => dec_dgram_header(buf@, 0) matches Ok((h, p)) && {
                    if h.flags / 128 % 2 == 0 {
                        *final(self) == *old(self) && out@.len() == 0
                    } else if h.flags / 64 % 2 == 1 {
                        &&& dec_acklist(buf@, p) matches Ok((ranges, _)) && final(self).incoming_acks@ == old(self).incoming_acks@ + ranges
                        &&& final(self).last_activity == now
                        &&& *final(self) == (Session {
                            incoming_acks: final(self).incoming_acks,
                            last_activity: final(self).last_activity,
                            ..*old(self)
                        })
                        &&& out@.len() == 0
                    } else if h.flags / 32 % 2 == 1 {
                        &&& dec_acklist(buf@, p) matches Ok((ranges, _)) && final(self).incoming_naks@ == old(self).incoming_naks@ + ranges
                        &&& final(self).last_activity == now
                        &&& *final(self) == (Session {
                            incoming_naks: final(self).incoming_naks,
                            last_activity: final(self).last_activity,
                            ..*old(self)
                        })
                        &&& out@.len() == 0
                    } else {
                        &&& crate::datagram::dec_frames(buf@, p) is Ok
                        &&& exists|mid: Session|
                            #[trigger] Session::note_step(
                                *old(self),
                                mid,
                                (h.sequence.0 % 0x1000000) as u32,
                                now,
                            ) && *final(self) == (Session {
                                dup: final(self).dup,
                                channels: final(self).channels,
                                splits: final(self).splits,
                                ..mid
                            })
                    }
                },
            },
    {
        let (header, p) = match DatagramHeader::decode(buf, 0) {
            Ok(x) => x,
            Err(e) => {
                return Err(e);
            },
        };
        let out: Vec<RaknetPacket> = Vec::new();
        if header.flags / 128 % 2 == 0 {
            // valid bit clear: not a RakNet datagram; drop
            return Ok(out);
        }
        if header.flags / 64 % 2 == 1 {
            let (ranges, _end) = match decode_acklist(buf, p) {
                Ok(x) => x,
                Err(e) => {
                    return Err(e);
                },
            };
            self.handle_ack_payload(ranges);
            self.last_activity = now;
            proof {
                assert(*self == (Session {
                    incoming_acks: self.incoming_acks,
                    last_activity: self.last_activity,
                    ..*old(self)
                }));
            }
            return Ok(out);
        }
        if header.flags / 32 % 2 == 1 {
            let (ranges, _end) = match decode_acklist(buf, p) {
                Ok(x) => x,
                Err(e) => {
                    return Err(e);
                },
            };
            self.handle_nack_payload(ranges);
            self.last_activity = now;
            proof {
                assert(*self == (Session {
                    incoming_naks: self.incoming_naks,
                    last_activity: self.last_activity,
                    ..*old(self)
                }));
            }
            return Ok(out);
        }
        let mut frames = match crate::datagram::decode_frames(buf, p) {
            Ok(x) => x,
            Err(e) => {
                return Err(e);
            },
        };
        self.note_received(header.sequence.value(), now);
        let ghost mid = *self;
        let mut out2 = out;
        #[verifier::loop_isolation(false)]
        while frames.len() > 0
            invariant
                self.wf(),
                *self == (Session {
                    dup: self.dup,
                    channels: self.channels,
                    splits: self.splits,
                    ..mid
                }),
                forall|k: int| 0 <= k < frames@.len() ==> (#[trigger] frames@[k])@.wf(),
            decreases frames@.len(),
        {
            let ghost fs = frames@;
            let f = frames.remove(0);
            proof {
                assert(f == fs[0]);
                assert forall|k: int| 0 <= k < frames@.len() implies (
                #[trigger] frames@[k])@.wf() by {
                    assert(frames@[k] == fs[k + 1]);
                }
            }
            match self.handle_encapsulated(f, now, &mut out2) {
                Ok(()) => {},
                Err(e) => {
                    proof {
                        assert(Session::note_step(
                            *old(self),
                            mid,
                            (header.sequence.0 % 0x1000000) as u32,
                            now,
                        ));
                    }
                    return Err(e);
                },
            }
        }
        proof {
            assert(Session::note_step(
                *old(self),
                mid,
                (header.sequence.0 % 0x1000000) as u32,
                now,
            ));
        }
        Ok(out2)
    }

    /// Reacts to one decoded control packet, per the lifecycle table: pings
    /// are answered with pongs; a connection request is accepted and moves
    /// the session to connected; the client's acceptance answer completes its
    /// side; a disconnection notice closes the session with the remote-peer
    /// reason. The reply, if any, is handed back for queueing.
    pub fn on_control_packet(&mut self, p: &RaknetPacket, now: u64) -> (r: Option<RaknetPacket>)
        requires
            old(self).wf(),
        ensures
            final(self).wf(),
            final(self).queued@ == old(self).queued@,
            final(self).sent@ == old(self).sent@,
            match p {
                RaknetPacket::ConnectedPing(cp) => (r matches Some(
                    RaknetPacket::ConnectedPong(pong),
                ) && pong.ping_time == cp.ping_time && pong.pong_time == now) && final(self).state
                    == old(self).state,
                RaknetPacket::ConnectionRequest(cr) => final(self).state == ConnState::Connect
                    && final(self).remote_guid == cr.server_guid && (r matches Some(
                    RaknetPacket::ConnectionRequestAccepted(a),
                ) && a.address == old(self).peer && a.system_index == 0 && a.request_timestamp
                    == cr.timestamp && a.accepted_timestamp == now && a.wf()
                    && a.system_addresses@[0] == (RakAddr::V4 { ip: [127, 0, 0, 1], port: 0 })),
                RaknetPacket::ConnectionRequestAccepted(a) => final(self).state
                    == ConnState::Connect && (r matches Some(
                    RaknetPacket::NewIncomingConnection(n),
                ) && n.server_address == old(self).peer && n.request_timestamp
                    == a.request_timestamp && n.accepted_timestamp == a.accepted_timestamp
                    && n.wf()),
                RaknetPacket::NewIncomingConnection(_) => final(self).state == old(self).state
                    && r is None,
                RaknetPacket::DisconnectionNotification(_) => final(self).state
                    == ConnState::Disconnected && final(self).last_disconnect == Some(
                    DisconnectReason::ClosedByRemotePeer,
                ) && r is None,
                _ => r is None && final(self).state == old(self).state,
            },
    {
        match p {
            RaknetPacket::ConnectedPing(cp) => {
                self.last_activity = now;
                Some(
                    RaknetPacket::ConnectedPong(
                        crate::packets::ConnectedPong { ping_time: cp.ping_time, pong_time: now },
                    ),
                )
            },
            RaknetPacket::ConnectedPong(_) => {
                self.last_activity = now;
                None
            },
            RaknetPacket::ConnectionRequest(cr) => {
                self.state = ConnState::Connect;
                self.remote_guid = cr.server_guid;
                self.last_activity = now;
                Some(
                    RaknetPacket::ConnectionRequestAccepted(
                        crate::packets::ConnectionRequestAccepted {
                            address: self.peer,
                            system_index: 0,
                            system_addresses: Session::local_addresses(),
                            request_timestamp: cr.timestamp,
                            accepted_timestamp: now,
                        },
                    ),
                )
            },
            RaknetPacket::ConnectionRequestAccepted(a) => {
                self.state = ConnState::Connect;
                self.last_activity = now;
                Some(
                    RaknetPacket::NewIncomingConnection(
                        crate::packets::NewIncomingConnection {
                            server_address: self.peer,
                            system_addresses: Session::local_addresses(),
                            request_timestamp: a.request_timestamp,
                            accepted_timestamp: a.accepted_timestamp,
                        },
                    ),
                )
            },
            RaknetPacket::DisconnectionNotification(_) => {
                self.state = ConnState::Disconnected;
                self.last_disconnect = Some(DisconnectReason::ClosedByRemotePeer);
                None
            },
            _ => None,
        }
    }

    /// The ten system addresses: the loopback, then unspecified slots.
    pub fn local_addresses() -> (r: Vec<RakAddr>)
        ensures
            r@.len() == 10,
            r@[0] == (RakAddr::V4 { ip: [127, 0, 0, 1], port: 0 }),
            forall|k: int|
                1 <= k < 10 ==> #[trigger] r@[k] == (RakAddr::V4 { ip: [0, 0, 0, 0], port: 0 }),
    {
        let mut v: Vec<RakAddr> = Vec::new();
        v.push(RakAddr::V4 { ip: [127, 0, 0, 1], port: 0 });
        let mut k: usize = 1;
        while k < 10
            invariant
                1 <= k <= 10,
                v@.len() == k,
                v@[0] == (RakAddr::V4 { ip: [127, 0, 0, 1], port: 0 }),
                forall|q: int|
                    1 <= q < k ==> #[trigger] v@[q] == (RakAddr::V4 { ip: [0, 0, 0, 0], port: 0 }),
            decreases 10 - k,
        {
            v.push(RakAddr::V4 { ip: [0, 0, 0, 0], port: 0 });
            k = k + 1;
        }
        v
    }

    /// Queue slot used by a priority.
    pub open spec fn pri_index(p: RakPriority) -> int {
        match p {
            RakPriority::Immediate => 0,
            RakPriority::High => 1,
            RakPriority::Normal => 2,
            RakPriority::Low => 3,
        }
    }

    /// Per-frame payload budget: the MTU less the datagram header and the
    /// largest encapsulated header.
    pub open spec fn spec_max_payload(mtu: u16) -> int {
        mtu - RAKNET_DATAGRAM_HEADER_SIZE - MAXIMUM_ENCAPSULATED_HEADER_SIZE
    }

    /// The chunk size used for one message: a message that fits the plain
    /// per-frame budget stays whole, whatever its class; one that must split
    /// sheds three more bytes per fragment when sequenced, since a split
    /// sequenced fragment's larger header would otherwise overflow the
    /// datagram next to a full chunk.
    pub open spec fn spec_chunk_size(mtu: u16, r: Reliability, len: int) -> int {
        if len <= Session::spec_max_payload(mtu) {
            Session::spec_max_payload(mtu)
        } else if crate::reliability::spec_is_sequenced(r) {
            Session::spec_max_payload(mtu) - 3
        } else {
            Session::spec_max_payload(mtu)
        }
    }

    /// Serialises one application or control packet and queues it at the
    /// given priority. A payload over the per-frame budget is split into
    /// fragments sharing a fresh split id, each fragment carrying its index
    /// and the count; a reliable packet takes consecutive reliable indices,
    /// one per fragment; an ordered or sequenced packet takes one ordering
    /// index for the whole message, stamped on every fragment, and a
    /// sequenced one takes one sequence index likewise; only an ordered send
    /// advances the channel's ordering counter.
    #[verifier::rlimit(100)]
    #[verifier::spinoff_prover]
    pub fn queue_app_packet(
        &mut self,
        packet: &RaknetPacket,
        reliability: Reliability,
        channel: u8,
        priority: RakPriority,
    )
        requires
            old(self).wf(),
            packet.wf(),
            channel < MAXIMUM_ORDERING_CHANNELS,
            packet.spec_enc().len() <= MAXIMUM_MESSAGE_SIZE,
        ensures
            final(self).wf(),
            *final(self) == (Session {
                next_reliable: final(self).next_reliable,
                next_split_id: final(self).next_split_id,
                order_write: final(self).order_write,
                seq_write: final(self).seq_write,
                queued: final(self).queued,
                ..*old(self)
            }),
            ({
                let payload = packet.spec_enc();
                let cs = crate::split::chunks(
                    payload,
                    Session::spec_chunk_size(old(self).mtu, reliability, payload.len() as int),
                );
                let pi = Session::pri_index(priority);
                let q0 = old(self).queued@[pi]@;
                let q1 = final(self).queued@[pi]@;
                &&& q1.len() == q0.len() + cs.len()
                &&& q1.subrange(0, q0.len() as int) == q0
                &&& forall|k: int|
                    0 <= k < cs.len() ==> {
                        let f = (#[trigger] q1[q0.len() + k])@;
                        &&& f.payload == cs[k]
                        &&& f.bit_length == 8 * cs[k].len()
                        &&& f.reliability == reliability
                        &&& f.needs_bas
                        &&& f.is_split == (cs.len() > 1)
                        &&& f.wf()
                        &&& (crate::reliability::spec_is_reliable(reliability)
                            ==> f.reliable_index == Some(
                            crate::order::wrap_add(old(self).next_reliable, k),
                        ))
                        &&& (crate::reliability::spec_is_ordered(reliability) ==> f.ordering_index
                            == Some(old(self).order_write@[channel as int]) && f.ordering_channel
                            == Some(channel))
                        &&& (crate::reliability::spec_is_sequenced(reliability)
                            ==> f.sequence_index == Some(old(self).seq_write@[channel as int])
                            && f.ordering_index == Some(old(self).order_write@[channel as int])
                            && f.ordering_channel == Some(channel))
                        &&& (cs.len() > 1 ==> f.split == Some(
                            crate::frame::SplitInfo {
                                count: cs.len() as u32,
                                id: old(self).next_split_id,
                                index: k as u32,
                            },
                        ))
                    }
                &&& forall|j: int|
                    0 <= j < 4 && j != pi ==> final(self).queued@[j] == old(self).queued@[j]
                &&& (if crate::reliability::spec_is_reliable(reliability) {
                    final(self).next_reliable == crate::order::wrap_add(
                        old(self).next_reliable,
                        cs.len() as int,
                    )
                } else {
                    final(self).next_reliable == old(self).next_reliable
                })
                &&& (if crate::reliability::spec_is_ordered(reliability) {
                    final(self).order_write@ == old(self).order_write@.update(
                        channel as int,
                        crate::order::wrap_add(old(self).order_write@[channel as int], 1),
                    )
                } else {
                    final(self).order_write@ == old(self).order_write@
                })
                &&& (if crate::reliability::spec_is_sequenced(reliability) {
                    final(self).seq_write@ == old(self).seq_write@.update(
                        channel as int,
                        crate::order::wrap_add(old(self).seq_write@[channel as int], 1),
                    )
                } else {
                    final(self).seq_write@ == old(self).seq_write@
                })
                &&& (if cs.len() > 1 {
                    final(self).next_split_id == (if old(self).next_split_id == 0xffff {
                        0int
                    } else {
                        old(self).next_split_id + 1
                    })
                } else {
                    final(self).next_split_id == old(self).next_split_id
                })
            }),
    {
        let mut payload: Vec<u8> = Vec::new();
        packet.encode(&mut payload);
        let ghost m = Session::spec_chunk_size(self.mtu, reliability, payload@.len() as int);
        let sequenced = reliability.is_sequenced();
        let base_max = (self.mtu as usize) - RAKNET_DATAGRAM_HEADER_SIZE
            - MAXIMUM_ENCAPSULATED_HEADER_SIZE;
        let max = if payload.len() <= base_max {
            base_max
        } else if sequenced {
            base_max - 3
        } else {
            base_max
        };
        let mut parts = crate::split::split_payload(&payload, max);
        let ghost cs = crate::split::chunks(payload@, m);
        proof {
            assert(parts@.map_values(|c: Vec<u8>| c@) == cs);
            assert(parts@.len() == cs.len());
            crate::split::lemma_chunks_bound(payload@, m);
            crate::split::lemma_chunks_len_le(payload@, m);
            assert(parts@.map_values(|c: Vec<u8>| c@) =~= cs.skip(0));
        }
        let count = parts.len();
        let is_split = count > 1;
        let ordered = reliability.is_ordered();
        let reliable = reliability.is_reliable();
        let mut ordering_index: Option<Sequence24> = None;
        let mut ordering_channel: Option<u8> = None;
        let mut sequence_index: Option<Sequence24> = None;
        if ordered {
            let chu = channel as usize;
            let oi = self.order_write[chu];
            let removed = self.order_write.remove(chu);
            self.order_write.insert(chu, (oi + 1) % 0x1000000);
            proof {
                assert(self.order_write@ =~= old(self).order_write@.update(
                    chu as int,
                    crate::order::wrap_add(old(self).order_write@[chu as int], 1),
                ));
            }
            ordering_index = Some(Sequence24(oi));
            ordering_channel = Some(channel);
        }
        if sequenced {
            let chu = channel as usize;
            let si = self.seq_write[chu];
            let removed = self.seq_write.remove(chu);
            self.seq_write.insert(chu, (si + 1) % 0x1000000);
            proof {
                assert(self.seq_write@ =~= old(self).seq_write@.update(
                    chu as int,
                    crate::order::wrap_add(old(self).seq_write@[chu as int], 1),
                ));
            }
            sequence_index = Some(Sequence24(si));
            // a sequenced message rides the channel's current ordering index
            // without advancing the ordered stream
            ordering_index = Some(Sequence24(self.order_write[chu]));
            ordering_channel = Some(channel);
        }
        let split_id = self.next_split_id;
        if is_split {
            self.next_split_id = if self.next_split_id == 0xffff {
                0
            } else {
                self.next_split_id + 1
            };
        }
        let pi: usize = match priority {
            RakPriority::Immediate => 0,
            RakPriority::High => 1,
            RakPriority::Normal => 2,
            RakPriority::Low => 3,
        };
        let mut queue = self.queued.remove(pi);
        let ghost q0 = queue@;
        let mut k: usize = 0;
        let ghost nr0 = self.next_reliable;
        while k < count
            invariant
                old(self).wf(),
                channel < MAXIMUM_ORDERING_CHANNELS,
                k <= count,
                count == cs.len(),
                count <= 0x100002,
                parts@.len() == count - k,
                parts@.map_values(|c: Vec<u8>| c@) == cs.skip(k as int),
                forall|q: int| 0 <= q < cs.len() ==> (#[trigger] cs[q]).len() <= m,
                0 < m <= 1368,
                m == Session::spec_chunk_size(old(self).mtu, reliability, packet.spec_enc().len() as int),
                queue@.len() == q0.len() + k,
                queue@.subrange(0, q0.len() as int) == q0,
                self.next_reliable < 0x1000000,
                nr0 < 0x1000000,
                reliable ==> self.next_reliable == crate::order::wrap_add(nr0, k as int),
                !reliable ==> self.next_reliable == nr0,
                reliable == crate::reliability::spec_is_reliable(reliability),
                ordered == crate::reliability::spec_is_ordered(reliability),
                sequenced == crate::reliability::spec_is_sequenced(reliability),
                ordered ==> self.order_write@ == old(self).order_write@.update(
                    channel as int,
                    crate::order::wrap_add(old(self).order_write@[channel as int], 1),
                ),
                !ordered ==> self.order_write@ == old(self).order_write@,
                sequenced ==> self.seq_write@ == old(self).seq_write@.update(
                    channel as int,
                    crate::order::wrap_add(old(self).seq_write@[channel as int], 1),
                ),
                !sequenced ==> self.seq_write@ == old(self).seq_write@,
                self.queued@ == old(self).queued@.remove(pi as int),
                pi == Session::pri_index(priority),
                pi < 4,
                q0 == old(self).queued@[pi as int]@,
                cs == crate::split::chunks(packet.spec_enc(), m),
                (ordered || sequenced) ==> (ordering_index matches Some(x) && x.0 < 0x1000000
                    && ordering_index == Some(Sequence24(old(self).order_write@[channel as int]))
                    && ordering_channel == Some(channel)),
                !(ordered || sequenced) ==> ordering_index is None && ordering_channel is None,
                sequenced ==> sequence_index == Some(
                    Sequence24(old(self).seq_write@[channel as int]),
                ),
                !sequenced ==> sequence_index is None,
                is_split == (cs.len() > 1),
                split_id == old(self).next_split_id,
                is_split ==> self.next_split_id == (if old(self).next_split_id == 0xffff {
                    0int
                } else {
                    old(self).next_split_id + 1
                }),
                !is_split ==> self.next_split_id == old(self).next_split_id,
                forall|q: int|
                    0 <= q < queue@.len() ==> Session::frame_fits(
                        old(self).mtu,
                        #[trigger] queue@[q],
                    ),
                forall|q: int|
                    0 <= q < k ==> {
                        let f = (#[trigger] queue@[q0.len() + q])@;
                        &&& f.payload == cs[q]
                        &&& f.bit_length == 8 * cs[q].len()
                        &&& f.reliability == reliability
                        &&& f.needs_bas
                        &&& f.is_split == (cs.len() > 1)
                        &&& f.wf()
                        &&& (crate::reliability::spec_is_reliable(reliability)
                            ==> f.reliable_index == Some(crate::order::wrap_add(nr0, q)))
                        &&& (crate::reliability::spec_is_ordered(reliability) ==> f.ordering_index
                            == Some(old(self).order_write@[channel as int]) && f.ordering_channel
                            == Some(channel))
                        &&& (crate::reliability::spec_is_sequenced(reliability)
                            ==> f.sequence_index == Some(old(self).seq_write@[channel as int])
                            && f.ordering_index == Some(old(self).order_write@[channel as int])
                            && f.ordering_channel == Some(channel))
                        &&& (cs.len() > 1 ==> f.split == Some(
                            crate::frame::SplitInfo {
                                count: cs.len() as u32,
                                id: split_id,
                                index: q as u32,
                            },
                        ))
                    },
                *self == (Session {
                    next_reliable: self.next_reliable,
                    next_split_id: self.next_split_id,
                    order_write: self.order_write,
                    seq_write: self.seq_write,
                    queued: self.queued,
                    ..*old(self)
                }),
                self.queued@.len() == 3,
                self.order_write@.len() == ORDERING_CHANNEL_COUNT,
                forall|q: int|
                    0 <= q < self.order_write@.len() ==> (#[trigger] self.order_write@[q])
                        < 0x1000000,
                self.seq_write@.len() == ORDERING_CHANNEL_COUNT,
                forall|q: int|
                    0 <= q < self.seq_write@.len() ==> (#[trigger] self.seq_write@[q]) < 0x1000000,
            decreases count - k,
        {
            let ghost parts_before = parts@;
            let chunk = parts.remove(0);
            proof {
                let mb = parts_before.map_values(|c: Vec<u8>| c@);
                assert(chunk@ == cs[k as int]) by {
                    assert(mb[0] == parts_before[0]@);
                    assert(cs.skip(k as int)[0] == cs[k as int]);
                }
                assert(chunk@.len() <= m);
                let nm = parts@.map_values(|c: Vec<u8>| c@);
                assert forall|q: int| 0 <= q < nm.len() implies #[trigger] nm[q] == cs.skip(
                    k as int + 1,
                )[q] by {
                    assert(parts@[q] == parts_before[q + 1]);
                    assert(mb[q + 1] == parts_before[q + 1]@);
                    assert(cs.skip(k as int)[q + 1] == cs[k + 1 + q]);
                    assert(cs.skip(k as int + 1)[q] == cs[k + 1 + q]);
                }
                assert(nm =~= cs.skip(k as int + 1));
            }
            let bl: u16 = (chunk.len() * 8) as u16;
            let reliable_index: Option<Sequence24> = if reliable {
                let ri = self.next_reliable;
                self.next_reliable = (ri + 1) % 0x1000000;
                proof {
                    crate::order::lemma_wrap_add_step(nr0, k as int);
                }
                Some(Sequence24(ri))
            } else {
                None
            };
            let split: Option<crate::frame::SplitInfo> = if is_split {
                Some(
                    crate::frame::SplitInfo {
                        count: count as u32,
                        id: split_id,
                        index: k as u32,
                    },
                )
            } else {
                None
            };
            let f = EncapsulatedPacket {
                reliability,
                is_split,
                needs_bas: true,
                bit_length: bl,
                reliable_index,
                sequence_index,
                ordering_index,
                ordering_channel,
                split,
                payload: chunk,
            };
            let ghost fsnap = f;
            let ghost qbefore = queue@;
            queue.push(f);
            proof {
                assert(queue@ == qbefore.push(fsnap));
                assert(queue@.subrange(0, q0.len() as int) =~= q0);
                let fv = fsnap@;
                assert(queue@[q0.len() + k as int] == fsnap);
                assert(fv.payload == cs[k as int]);
                assert(fv.reliability == reliability);
                assert(fv.is_split == (cs.len() > 1));
                assert(fv.reliable_index is Some <==> crate::reliability::spec_is_reliable(
                    fv.reliability,
                ));
                assert(fv.sequence_index is Some <==> crate::reliability::spec_is_sequenced(
                    fv.reliability,
                ));
                assert(fv.ordering_index is Some <==> (crate::reliability::spec_is_ordered(
                    fv.reliability,
                ) || crate::reliability::spec_is_sequenced(fv.reliability)));
                assert(fv.split is Some <==> fv.is_split);
                assert(fv.payload.len() == crate::frame::spec_payload_len(fv.bit_length));
                assert(fv.reliable_index matches Some(x) ==> x < 0x1000000);
                assert(fv.sequence_index matches Some(x) ==> x < 0x1000000) by {
                    if sequenced {
                        assert(old(self).seq_write@[channel as int] < 0x1000000);
                        assert(sequence_index == Some(
                            Sequence24(old(self).seq_write@[channel as int]),
                        ));
                        assert(fsnap.sequence_index == sequence_index);
                    } else {
                        assert(sequence_index is None);
                    }
                }
                assert(fv.ordering_index matches Some(x) ==> x < 0x1000000);
                assert(fv.wf());
                assert(fv.enc_indices().len() == fv.len_r() + fv.len_s() + fv.len_o()
                    + fv.len_sp());
                assert(crate::frame::enc_frame(fv).len() == 3 + fv.enc_indices().len()
                    + fv.payload.len());
                assert(Session::frame_fits(old(self).mtu, fsnap));
                assert(crate::reliability::spec_is_reliable(reliability) ==> fv.reliable_index
                    == Some(crate::order::wrap_add(nr0, k as int)));
                assert(crate::reliability::spec_is_ordered(reliability) ==> fv.ordering_index
                    == Some(old(self).order_write@[channel as int]) && fv.ordering_channel
                    == Some(channel));
                assert(crate::reliability::spec_is_sequenced(reliability) ==> fv.sequence_index
                    == Some(old(self).seq_write@[channel as int]) && fv.ordering_index == Some(
                    old(self).order_write@[channel as int],
                ) && fv.ordering_channel == Some(channel));
                assert(cs.len() > 1 ==> fv.split == Some(
                    crate::frame::SplitInfo {
                        count: cs.len() as u32,
                        id: split_id,
                        index: k as u32,
                    },
                ));
                assert(forall|q: int|
                    0 <= q < qbefore.len() ==> #[trigger] queue@[q] == qbefore[q]);
            }
            k = k + 1;
        }
        let ghost qmid = self.queued@;
        let ghost qsnap = queue;
        let ghost qv = queue@;
        self.queued.insert(pi, queue);
        proof {
            assert(self.queued@ == qmid.insert(pi as int, qsnap));
            assert(self.queued@[pi as int]@ == qv);
            assert(qv.subrange(0, q0.len() as int) =~= q0);
            assert forall|j: int| 0 <= j < 4 && j != pi implies self.queued@[j] == old(self).queued@[j] by {
                if j < pi {
                    assert(self.queued@[j] == qmid[j]);
                    assert(qmid[j] == old(self).queued@[j]);
                } else {
                    assert(self.queued@[j] == qmid[j - 1]);
                    assert(qmid[j - 1] == old(self).queued@[j]);
                }
            }
            assert forall|p: int, kk: int|
                0 <= p < 4 && 0 <= kk < self.queued@[p]@.len() implies Session::frame_fits(
                self.mtu,
                #[trigger] self.queued@[p]@[kk],
            ) by {
                if p == pi {
                    assert(self.queued@[p]@[kk] == qv[kk]);
                } else {
                    assert(self.queued@[p] == old(self).queued@[p]);
                    assert(Session::frame_fits(old(self).mtu, old(self).queued@[p]@[kk]));
                }
            }
        }
    }

    /// Length on the wire of one encapsulated packet.
    pub fn encoded_len(f: &EncapsulatedPacket) -> (r: usize)
        requires
            f@.wf(),
            f.payload@.len() <= 0x10000,
        ensures
            r == crate::frame::enc_frame(f@).len(),
    {
        let mut n: usize = 3;
        if f.reliability.is_reliable() {
            n = n + 3;
        }
        if f.reliability.is_sequenced() {
            n = n + 3;
        }
        if f.reliability.is_ordered() || f.reliability.is_sequenced() {
            n = n + 4;
        }
        if f.is_split {
            n = n + 10;
        }
        n + f.payload.len()
    }

    /// Advances the outgoing datagram sequence, returning the value to use.
    fn take_seq(&mut self) -> (r: u32)
        requires
            old(self).wf_core(),
        ensures
            final(self).wf_core(),
            r == old(self).send_seq,
            r < 0x1000000,
            *final(self) == (Session { send_seq: final(self).send_seq, ..*old(self) }),
            final(self).send_seq == crate::order::wrap_add(old(self).send_seq, 1),
    {
        let s = self.send_seq;
        self.send_seq = (self.send_seq + 1) % 0x1000000;
        proof {
            crate::order::lemma_wrap_add_zero(old(self).send_seq);
            crate::order::lemma_wrap_add_step(old(self).send_seq, 0);
        }
        s
    }

    /// Builds one datagram from already-encoded frame bytes.
    fn build_datagram(flags: u8, seq: u32, body: &Vec<u8>) -> (r: Vec<u8>)
        requires
            seq < 0x1000000,
        ensures
            r@ == crate::datagram::enc_dgram_header(
                crate::datagram::DatagramHeader { flags, sequence: Sequence24(seq) },
            ) + body@,
    {
        let mut out: Vec<u8> = Vec::new();
        let header = DatagramHeader { flags, sequence: Sequence24(seq) };
        header.encode(&mut out);
        crate::codec::append_bytes(body, &mut out);
        out
    }

    /// Every queued frame, as its view, in priority order.
    pub open spec fn queued_views(q: Seq<Vec<EncapsulatedPacket>>) -> Seq<crate::frame::FrameView> {
        q[0]@.map_values(|f: EncapsulatedPacket| f@) + q[1]@.map_values(
            |f: EncapsulatedPacket| f@,
        ) + q[2]@.map_values(|f: EncapsulatedPacket| f@) + q[3]@.map_values(
            |f: EncapsulatedPacket| f@,
        )
    }

    /// The views of every frame in the queues before priority `pri`.
    pub open spec fn consumed_prefix(q: Seq<Vec<EncapsulatedPacket>>, pri: int) -> Seq<
        crate::frame::FrameView,
    > {
        if pri <= 0 {
            Seq::empty()
        } else if pri == 1 {
            q[0]@.map_values(|f: EncapsulatedPacket| f@)
        } else if pri == 2 {
            q[0]@.map_values(|f: EncapsulatedPacket| f@) + q[1]@.map_values(
                |f: EncapsulatedPacket| f@,
            )
        } else if pri == 3 {
            q[0]@.map_values(|f: EncapsulatedPacket| f@) + q[1]@.map_values(
                |f: EncapsulatedPacket| f@,
            ) + q[2]@.map_values(|f: EncapsulatedPacket| f@)
        } else {
            Session::queued_views(q)
        }
    }

    /// How many frames wait across the four priority queues.
    pub open spec fn queued_count(q: Seq<Vec<EncapsulatedPacket>>) -> int {
        q[0]@.len() + q[1]@.len() + q[2]@.len() + q[3]@.len() as int
    }

    /// The bodies of the datagrams from position `from` on, joined: each
    /// datagram's bytes past its four header bytes.
    pub open spec fn bodies_from(r: Seq<Vec<u8>>, from: int) -> Seq<u8>
        decreases r.len() - from,
    {
        if from < 0 || from >= r.len() {
            Seq::empty()
        } else {
            r[from]@.skip(4) + Session::bodies_from(r, from + 1)
        }
    }

    /// How many tracked datagrams are due to resend at `now`.
    pub open spec fn count_due(s: Seq<SentDatagram>, now: u64) -> int
        decreases s.len(),
    {
        if s.len() == 0 {
            0
        } else {
            (if s[0].next_send <= now {
                1int
            } else {
                0int
            }) + Session::count_due(s.drop_first(), now)
        }
    }

    /// Appending one datagram appends its body.
    proof fn lemma_bodies_from_snoc(r: Seq<Vec<u8>>, from: int, d: Vec<u8>)
        requires
            0 <= from <= r.len(),
        ensures
            Session::bodies_from(r.push(d), from) == Session::bodies_from(r, from) + d@.skip(4),
        decreases r.len() - from,
    {
        if from == r.len() {
            assert(Session::bodies_from(r, from) =~= Seq::<u8>::empty());
            assert(r.push(d)[from as int] == d);
            assert(Session::bodies_from(r.push(d), from + 1) =~= Seq::<u8>::empty());
            assert(Session::bodies_from(r.push(d), from) =~= d@.skip(4));
            assert(Session::bodies_from(r, from) + d@.skip(4) =~= d@.skip(4));
        } else {
            Session::lemma_bodies_from_snoc(r, from + 1, d);
            assert(r.push(d)[from as int] == r[from as int]);
            assert(r[from as int]@.skip(4) + (Session::bodies_from(r, from + 1) + d@.skip(4))
                =~= (r[from as int]@.skip(4) + Session::bodies_from(r, from + 1)) + d@.skip(4));
        }
    }

    /// One more processed entry adds one to the due count exactly when due.
    ///
    /// (See also `lemma_count_due_le` below.)
    proof fn lemma_count_due_snoc(s: Seq<SentDatagram>, k: int, now: u64)
        requires
            0 <= k < s.len(),
        ensures
            Session::count_due(s.take(k + 1), now) == Session::count_due(s.take(k), now)
                + (if s[k].next_send <= now {
                1int
            } else {
                0int
            }),
        decreases k,
    {
        if k == 0 {
            assert(s.take(1).drop_first() =~= Seq::<SentDatagram>::empty());
            assert(s.take(1)[0] == s[0]);
            assert(s.take(0) =~= Seq::<SentDatagram>::empty());
        } else {
            assert(s.take(k + 1).drop_first() =~= s.drop_first().take(k));
            assert(s.take(k).drop_first() =~= s.drop_first().take(k - 1));
            Session::lemma_count_due_snoc(s.drop_first(), k - 1, now);
            assert(s.take(k + 1)[0] == s[0]);
            assert(s.take(k)[0] == s[0]);
            assert(s.drop_first()[k - 1] == s[k]);
        }
    }

    /// The leading datagrams one flush emits: the pending ACK ranges as one
    /// ACK datagram, then the pending NACK ranges as one NACK datagram, each
    /// under the next outgoing sequence.
    pub open spec fn emission_head_ok(
        acks0: Seq<SequenceRange>,
        nacks0: Seq<SequenceRange>,
        limit: int,
        cwnd: int,
        seq0: u32,
        head: Seq<Vec<u8>>,
    ) -> bool {
        &&& ((acks0.len() > 0 && acks0.len() <= 0xffff && limit >= 1) ==> (head.len() >= 1
            && head[0]@ == crate::datagram::enc_dgram_header(
            DatagramHeader {
                flags: FLAGS_ACK_DATAGRAM,
                sequence: Sequence24(seq0),
            },
        ) + crate::datagram::enc_acklist(acks0)))
        &&& ((nacks0.len() > 0 && nacks0.len() <= 0xffff && limit >= 2 && cwnd >= 2 && acks0.len()
            == 0) ==> (head.len() >= 1 && head[0]@ == crate::datagram::enc_dgram_header(
            DatagramHeader {
                flags: FLAGS_NACK_DATAGRAM,
                sequence: Sequence24(seq0),
            },
        ) + crate::datagram::enc_acklist(nacks0)))
        &&& ((nacks0.len() > 0 && nacks0.len() <= 0xffff && limit >= 2 && cwnd >= 2 && acks0.len()
            > 0 && acks0.len() <= 0xffff) ==> (head.len() >= 2 && head[1]@
            == crate::datagram::enc_dgram_header(
            DatagramHeader {
                flags: FLAGS_NACK_DATAGRAM,
                sequence: Sequence24(crate::order::wrap_add(seq0, 1)),
            },
        ) + crate::datagram::enc_acklist(nacks0)))
    }

    /// Emits everything now due, in order: queued incoming ACKs and NACKs are
    /// applied; pending outgoing ACK then NACK ranges leave as their own
    /// datagrams; tracked datagrams whose resend time has come go out again
    /// under fresh sequences; then the queued frames drain in priority order,
    /// packed greedily into datagrams within the MTU, reliable ones entering
    /// the retransmit set. At most `limit` datagrams leave.
    #[verifier::rlimit(100)]
    #[verifier::spinoff_prover]
    pub fn flush(&mut self, now: u64, limit: usize) -> (r: Vec<Vec<u8>>)
        requires
            old(self).wf(),
        ensures
            final(self).wf(),
            final(self).state == old(self).state,
            final(self).incoming_acks@.len() == 0,
            final(self).incoming_naks@.len() == 0,
            r@.len() <= limit,
            r@.len() <= final(self).window.cwnd,
            old(self).incoming_acks@.len() == 0 && old(self).incoming_naks@.len() == 0 ==> final(self).window == old(self).window,
            // pending ACK ranges leave first, as one ACK datagram carrying
            // exactly them; the pending NACK ranges follow, likewise
            limit >= 1 ==> final(self).acks@.len() == 0,
            limit >= 2 && final(self).window.cwnd >= 2 ==> final(self).nacks@.len() == 0,
            Session::emission_head_ok(
                old(self).acks@,
                old(self).nacks@,
                limit as int,
                final(self).window.cwnd as int,
                old(self).send_seq,
                r@,
            ),
            // with no queued incoming ranges and a budget that covers
            // everything due, every queued frame leaves: the data datagrams'
            // bodies are exactly the queued frames' encodings in priority
            // order, after the ACK/NACK head and the due retransmissions
            ({
                let nh = (if 0 < old(self).acks@.len() <= 0xffff {
                    1int
                } else {
                    0int
                }) + (if 0 < old(self).nacks@.len() <= 0xffff {
                    1int
                } else {
                    0int
                });
                let nr = Session::count_due(old(self).sent@, now);
                let need = 2 + old(self).sent@.len() + Session::queued_count(old(self).queued@);
                (old(self).incoming_acks@.len() == 0 && old(self).incoming_naks@.len() == 0
                    && need <= limit && need <= old(self).window.cwnd) ==> {
                    &&& forall|p: int| 0 <= p < 4 ==> final(self).queued@[p]@.len() == 0
                    &&& Session::bodies_from(r@, nh + nr) == crate::datagram::enc_frames(
                        Session::queued_views(old(self).queued@),
                    )
                    &&& forall|i: int|
                        nh + nr <= i < r@.len() ==> (#[trigger] r@[i])@.len() >= 4 && r@[i]@[0]
                            == FLAG_VALID
                }
            }),
    {
        let mut out: Vec<Vec<u8>> = Vec::new();
        self.process_incoming_acks_naks(now);
        // the congestion window caps what one flush may emit
        let eff = if limit <= self.window.cwnd {
            limit
        } else {
            self.window.cwnd
        };
        // pending ACK ranges
        if self.acks.len() > 0 && out.len() < eff {
            if self.acks.len() > 0xffff {
                self.acks.clear();
            } else {
                let mut body: Vec<u8> = Vec::new();
                encode_acklist(&self.acks, &mut body);
                self.acks.clear();
                let seq = self.take_seq();
                out.push(Session::build_datagram(FLAGS_ACK_DATAGRAM, seq, &body));
            }
        }
        // pending NACK ranges
        if self.nacks.len() > 0 && out.len() < eff {
            if self.nacks.len() > 0xffff {
                self.nacks.clear();
            } else {
                let mut body: Vec<u8> = Vec::new();
                encode_acklist(&self.nacks, &mut body);
                self.nacks.clear();
                let seq = self.take_seq();
                out.push(Session::build_datagram(FLAGS_NACK_DATAGRAM, seq, &body));
            }
        }
        // due retransmissions go out under fresh sequences
        let rto = self.window.rto();
        let ghost out_head = out@;
        let ghost win_mid = self.window;
        let ghost nh: int = (if 0 < old(self).acks@.len() <= 0xffff {
            1int
        } else {
            0int
        }) + (if 0 < old(self).nacks@.len() <= 0xffff {
            1int
        } else {
            0int
        });
        let ghost need = 2 + old(self).sent@.len() + Session::queued_count(old(self).queued@);
        let ghost g_on = old(self).incoming_acks@.len() == 0 && old(self).incoming_naks@.len()
            == 0 && need <= limit && need <= old(self).window.cwnd;
        let ghost sent_mid = self.sent@;
        let ghost qmid0 = self.queued@;
        proof {
            assert(g_on ==> out_head.len() == nh);
            assert(g_on ==> sent_mid == old(self).sent@);
            assert(g_on ==> win_mid == old(self).window);
            assert(qmid0 == old(self).queued@);
            assert(rto <= 300030);
            assert(Session::emission_head_ok(
                old(self).acks@,
                old(self).nacks@,
                limit as int,
                win_mid.cwnd as int,
                old(self).send_seq,
                out_head,
            ));
        }
        let mut kept: Vec<SentDatagram> = Vec::new();
        while self.sent.len() > 0
            invariant
                rto <= 300030,
                self.wf(),
                self.state == old(self).state,
                self.incoming_acks@.len() == 0,
                self.incoming_naks@.len() == 0,
                forall|q: int| 0 <= q < kept@.len() ==> (#[trigger] kept@[q]).seq < 0x1000000,
                out@.len() <= eff,
                eff <= limit,
                eff <= win_mid.cwnd,
                self.window == win_mid,
                limit >= 1 ==> self.acks@.len() == 0,
                limit >= 2 && win_mid.cwnd >= 2 ==> self.nacks@.len() == 0,
                out_head.len() <= out@.len(),
                out@.subrange(0, out_head.len() as int) == out_head,
                emission_ok_carry(*old(self), limit as int, win_mid, out_head),
                self.queued@ == qmid0,
                self.sent@.len() <= sent_mid.len(),
                self.sent@ == sent_mid.skip(sent_mid.len() - self.sent@.len()),
                g_on ==> (out_head.len() == nh && sent_mid == old(self).sent@ && need <= eff
                    && need == 2 + old(self).sent@.len() + Session::queued_count(
                    old(self).queued@,
                ) && nh <= 2 && out@.len() == nh + Session::count_due(
                    sent_mid.take(sent_mid.len() - self.sent@.len()),
                    now,
                )),
                g_on ==> forall|i: int|
                    out_head.len() <= i < out@.len() ==> (#[trigger] out@[i])@.len() >= 4
                        && out@[i]@[0] == FLAG_VALID,
            decreases self.sent@.len(),
        {
            let ghost kproc = sent_mid.len() - self.sent@.len();
            let ghost out_b = out@;
            let mut e = self.sent.remove(0);
            proof {
                assert(e == sent_mid[kproc as int]);
                assert(sent_mid.skip(kproc as int).drop_first() =~= sent_mid.skip(
                    kproc as int + 1,
                ));
                if g_on {
                    Session::lemma_count_due_snoc(sent_mid, kproc as int, now);
                    assert(Session::count_due(sent_mid.take(kproc as int), now) <= kproc as int)
                        by {
                        lemma_count_due_le(sent_mid.take(kproc as int), now);
                    }
                }
            }
            if e.next_send <= now && out.len() < eff {
                let seq = self.take_seq();
                out.push(Session::build_datagram(FLAG_VALID, seq, &e.body));
                e.seq = seq;
                e.next_send = if now <= 0xffff_ffff_f000_0000 {
                    now + rto
                } else {
                    now
                };
            } else {
                proof {
                    if g_on {
                        assert(!(e.next_send <= now)) by {
                            if e.next_send <= now {
                                assert(out_b.len() == nh + Session::count_due(
                                    sent_mid.take(kproc as int),
                                    now,
                                ));
                                assert(out_b.len() < eff);
                            }
                        }
                    }
                }
            }
            kept.push(e);
            proof {
                assert(out@.subrange(0, out_head.len() as int) =~= out_head) by {
                    assert forall|w: int| 0 <= w < out_head.len() implies out@[w] == out_head[w] by {
                        assert(out_b.subrange(0, out_head.len() as int)[w] == out_b[w]);
                        if out@.len() > out_b.len() {
                            assert(out@[w] == out_b[w]);
                        }
                    }
                }
                if g_on {
                    assert forall|i: int|
                        out_head.len() <= i < out@.len() implies (#[trigger] out@[i])@.len() >= 4
                            && out@[i]@[0] == FLAG_VALID by {
                        if i < out_b.len() {
                            assert(out@[i] == out_b[i]);
                        } else {
                            assert(out@[i] == out@.last());
                            assert(out@.last()@.len() >= 4);
                            assert(out@.last()@[0] == FLAG_VALID);
                        }
                    }
                }
            }
        }
        proof {
            assert(sent_mid.take(sent_mid.len() as int) =~= sent_mid);
        }
        // uniqueness of tracked sequences is re-established below by keying
        // retransmitted entries off fresh sequences; stale duplicates are
        // possible only across the wrap and are dropped here
        let mut dedup: Vec<SentDatagram> = Vec::new();
        while kept.len() > 0
            invariant
                self.wf(),
                self.state == old(self).state,
                self.incoming_acks@.len() == 0,
                self.incoming_naks@.len() == 0,
                forall|q: int| 0 <= q < kept@.len() ==> (#[trigger] kept@[q]).seq < 0x1000000,
                forall|q: int| 0 <= q < dedup@.len() ==> (#[trigger] dedup@[q]).seq < 0x1000000,
                forall|q1: int, q2: int|
                    0 <= q1 < q2 < dedup@.len() ==> (#[trigger] dedup@[q1]).seq != (
                    #[trigger] dedup@[q2]).seq,
                out@.len() <= eff,
                eff <= limit,
                eff <= win_mid.cwnd,
                self.window == win_mid,
                limit >= 1 ==> self.acks@.len() == 0,
                limit >= 2 && win_mid.cwnd >= 2 ==> self.nacks@.len() == 0,
                out_head.len() <= out@.len(),
                out@.subrange(0, out_head.len() as int) == out_head,
                emission_ok_carry(*old(self), limit as int, win_mid, out_head),
                self.queued@ == qmid0,
                g_on ==> (out_head.len() == nh && sent_mid == old(self).sent@ && need <= eff
                    && need == 2 + old(self).sent@.len() + Session::queued_count(
                    old(self).queued@,
                ) && nh <= 2 && out@.len() == nh + Session::count_due(sent_mid, now)),
                g_on ==> forall|i: int|
                    out_head.len() <= i < out@.len() ==> (#[trigger] out@[i])@.len() >= 4
                        && out@[i]@[0] == FLAG_VALID,
            decreases kept@.len(),
        {
            let e = kept.remove(0);
            let mut dup = false;
            let mut q: usize = 0;
            while q < dedup.len()
                invariant
                    q <= dedup@.len(),
                    dup == exists|w: int| 0 <= w < q && (#[trigger] dedup@[w]).seq == e.seq,
                decreases dedup@.len() - q,
            {
                if dedup[q].seq == e.seq {
                    proof {
                        assert(0 <= q < q + 1 && dedup@[q as int].seq == e.seq);
                    }
                    dup = true;
                }
                q = q + 1;
            }
            if !dup {
                let ghost dd = dedup@;
                dedup.push(e);
                proof {
                    assert forall|q1: int, q2: int|
                        0 <= q1 < q2 < dedup@.len() implies (#[trigger] dedup@[q1]).seq != (
                    #[trigger] dedup@[q2]).seq by {
                        if q2 == dedup@.len() - 1 {
                            assert(dedup@[q1] == dd[q1]);
                        }
                    }
                }
            }
        }
        self.sent = dedup;
        // fresh frames drain in priority order, packed within the MTU
        let budget = (self.mtu as usize) - UDP_HEADER_SIZE;
        let ghost start = out@.len() as int;
        proof {
            assert(0 <= start);
        }
        let ghost qv_all = Session::queued_views(qmid0);
        let ghost consumed0: Seq<crate::frame::FrameView> = Seq::empty();
        let ghost consumed: Seq<crate::frame::FrameView> = consumed0;
        proof {
            assert(Session::bodies_from(out@, start) =~= Seq::<u8>::empty());
            assert(crate::datagram::enc_frames(consumed) =~= Seq::<u8>::empty());
        }
        let mut pri: usize = 0;
        while pri < 4
            invariant
                rto <= 300030,
                self.wf(),
                self.state == old(self).state,
                self.incoming_acks@.len() == 0,
                self.incoming_naks@.len() == 0,
                out@.len() <= eff,
                eff <= limit,
                eff <= win_mid.cwnd,
                self.window == win_mid,
                limit >= 1 ==> self.acks@.len() == 0,
                limit >= 2 && win_mid.cwnd >= 2 ==> self.nacks@.len() == 0,
                out_head.len() <= out@.len(),
                out@.subrange(0, out_head.len() as int) == out_head,
                emission_ok_carry(*old(self), limit as int, win_mid, out_head),
                budget == self.mtu - UDP_HEADER_SIZE,
                budget >= 100,
                qmid0 == old(self).queued@,
                self.queued@.len() == 4,
                0 <= start,
                g_on ==> (out_head.len() == nh && need <= eff && nh <= 2 && start == nh
                    + Session::count_due(old(self).sent@, now) && need == 2 + old(
                    self,
                ).sent@.len() + Session::queued_count(old(self).queued@) && start <= out@.len()),
                g_on ==> Session::bodies_from(out@, start) == crate::datagram::enc_frames(
                    consumed,
                ),
                g_on ==> out@.len() <= start + consumed.len(),
                g_on ==> forall|p: int| 0 <= p < pri ==> self.queued@[p]@.len() == 0,
                g_on ==> forall|p: int|
                    pri <= p < 4 ==> #[trigger] self.queued@[p]@ == qmid0[p]@,
                g_on ==> consumed == Session::consumed_prefix(qmid0, pri as int),
                g_on ==> consumed.len() <= Session::queued_count(qmid0),
                g_on ==> forall|i: int|
                    out_head.len() <= i < out@.len() ==> (#[trigger] out@[i])@.len() >= 4
                        && out@[i]@[0] == FLAG_VALID,
            decreases 4 - pri,
        {
            let ghost qall = self.queued@;
            proof {
                assert(forall|p: int, kk: int|
                    0 <= p < 4 && 0 <= kk < qall[p]@.len() ==> Session::frame_fits(
                        self.mtu,
                        #[trigger] qall[p]@[kk],
                    ));
            }
            let mut queue = self.queued.remove(pri);
            let ghost qv0 = queue@.map_values(|f: EncapsulatedPacket| f@);
            let mut body: Vec<u8> = Vec::new();
            let mut has_reliable = false;
            proof {
                assert(queue@.map_values(|f: EncapsulatedPacket| f@) =~= qv0.skip(0));
                assert forall|q: int| 0 <= q < queue@.len() implies Session::frame_fits(
                    self.mtu,
                    #[trigger] queue@[q],
                ) by {
                    assert(queue@[q] == qall[pri as int]@[q]);
                }
                assert forall|p: int, kk: int|
                    0 <= p < self.queued@.len() && 0 <= kk < self.queued@[p]@.len()
                        implies Session::frame_fits(self.mtu, #[trigger] self.queued@[p]@[kk]) by {
                    if p < pri {
                        assert(self.queued@[p] == qall[p]);
                    } else {
                        assert(self.queued@[p] == qall[p + 1]);
                    }
                }
            }
            while queue.len() > 0 && out.len() < eff
                invariant
                    rto <= 300030,
                    self.wf_core(),
                    self.queued@.len() == 3,
                    pri < 4,
                    self.state == old(self).state,
                    self.incoming_acks@.len() == 0,
                    self.incoming_naks@.len() == 0,
                    out@.len() <= eff,
                    eff <= limit,
                    eff <= win_mid.cwnd,
                    self.window == win_mid,
                    limit >= 1 ==> self.acks@.len() == 0,
                    limit >= 2 && win_mid.cwnd >= 2 ==> self.nacks@.len() == 0,
                    out_head.len() <= out@.len(),
                    out@.subrange(0, out_head.len() as int) == out_head,
                    emission_ok_carry(*old(self), limit as int, win_mid, out_head),
                    budget == self.mtu - UDP_HEADER_SIZE,
                    budget >= 100,
                    body@.len() <= budget,
                    forall|q: int|
                        0 <= q < queue@.len() ==> Session::frame_fits(
                            self.mtu,
                            #[trigger] queue@[q],
                        ),
                    forall|p: int, kk: int|
                        0 <= p < self.queued@.len() && 0 <= kk < self.queued@[p]@.len()
                            ==> Session::frame_fits(self.mtu, #[trigger] self.queued@[p]@[kk]),
                    self.queued@ == qall.remove(pri as int),
                    queue@.len() <= qv0.len(),
                    queue@.map_values(|f: EncapsulatedPacket| f@) == qv0.skip(
                        qv0.len() - queue@.len(),
                    ),
                    qmid0 == old(self).queued@,
                    0 <= start,
                    g_on ==> (out_head.len() == nh && need <= eff && nh <= 2 && start
                        <= out@.len() && need == 2 + old(self).sent@.len()
                        + Session::queued_count(old(self).queued@) && qv0 == qmid0[pri as int]@.map_values(
                        |f: EncapsulatedPacket| f@,
                    ) && consumed == Session::consumed_prefix(qmid0, pri as int) && consumed.len()
                        + qv0.len() <= Session::queued_count(qmid0) && start == nh
                        + Session::count_due(old(self).sent@, now)),
                    g_on ==> Session::bodies_from(out@, start) + body@
                        == crate::datagram::enc_frames(
                        consumed + qv0.take(qv0.len() - queue@.len()),
                    ),
                    g_on ==> out@.len() + (if body@.len() > 0 {
                        1int
                    } else {
                        0int
                    }) <= start + consumed.len() + (qv0.len() - queue@.len()),
                    g_on ==> forall|i: int|
                        out_head.len() <= i < out@.len() ==> (#[trigger] out@[i])@.len() >= 4
                            && out@[i]@[0] == FLAG_VALID,
                decreases queue@.len(),
            {
                let ghost queue_before = queue@;
                let f = queue.remove(0);
                proof {
                    assert(Session::frame_fits(self.mtu, f));
                    assert(crate::frame::enc_frame(f@).len() >= f@.payload.len());
                    let mb = queue_before.map_values(|g: EncapsulatedPacket| g@);
                    assert(f@ == mb[0]);
                    let proc = qv0.len() - queue_before.len();
                    assert(f@ == qv0[proc as int]) by {
                        assert(qv0.skip(proc as int)[0] == qv0[proc as int]);
                    }
                    let nm = queue@.map_values(|g: EncapsulatedPacket| g@);
                    assert forall|w: int| 0 <= w < nm.len() implies #[trigger] nm[w] == qv0.skip(
                        proc as int + 1,
                    )[w] by {
                        assert(queue@[w] == queue_before[w + 1]);
                        assert(mb[w + 1] == queue_before[w + 1]@);
                        assert(qv0.skip(proc as int)[w + 1] == qv0[proc + 1 + w]);
                        assert(qv0.skip(proc as int + 1)[w] == qv0[proc + 1 + w]);
                    }
                    assert(nm =~= qv0.skip(proc as int + 1));
                }
                let flen = Session::encoded_len(&f);
                if body.len() + flen > budget - RAKNET_DATAGRAM_HEADER_SIZE {
                    // finalize the current datagram, start a new one
                    let seq = self.take_seq();
                    let ghost out_b = out@;
                    out.push(Session::build_datagram(FLAG_VALID, seq, &body));
                    proof {
                        assert(out@.subrange(0, out_head.len() as int) =~= out_head) by {
                            assert forall|w: int|
                                0 <= w < out_head.len() implies out@[w] == out_head[w] by {
                                assert(out_b.subrange(0, out_head.len() as int)[w] == out_b[w]);
                                assert(out@[w] == out_b[w]);
                            }
                        }
                        if g_on {
                            Session::lemma_bodies_from_snoc(out_b, start, out@.last());
                            assert(out@.last()@.skip(4) =~= body@);
                            assert(out@.drop_last() =~= out_b);
                            assert(Session::bodies_from(out@, start) == Session::bodies_from(
                                out_b,
                                start,
                            ) + body@) by {
                                assert(out@ =~= out_b.push(out@.last()));
                            }
                            assert(out@.last()@.len() >= 4);
                            assert(out@.last()@[0] == FLAG_VALID);
                            assert forall|i: int|
                                out_head.len() <= i < out@.len() implies (
                            #[trigger] out@[i])@.len() >= 4 && out@[i]@[0] == FLAG_VALID by {
                                if i < out_b.len() {
                                    assert(out@[i] == out_b[i]);
                                }
                            }
                        }
                    }
                    if has_reliable {
                        let nx = if now <= 0xffff_ffff_f000_0000 {
                            now + rto
                        } else {
                            now
                        };
                        self.track_sent(seq, &body, now, nx);
                    }
                    body = Vec::new();
                    has_reliable = false;
                }
                if f.reliability.is_reliable() {
                    has_reliable = true;
                }
                let ghost body_b = body@;
                let ghost fv2 = f@;
                f.encode_raknet(&mut body);
                proof {
                    if g_on {
                        let proc = qv0.len() as int - queue@.len() as int;
                        assert(fv2 == qv0[proc - 1]);
                        let base = consumed + qv0.take(proc - 1);
                        assert(consumed + qv0.take(proc) =~= base.push(qv0[proc - 1]));
                        crate::datagram::lemma_enc_frames_snoc(base, qv0[proc - 1]);
                        assert(body@ == body_b + crate::frame::enc_frame(fv2));
                    }
                }
            }
            proof {
                if g_on {
                    lemma_count_due_le(old(self).sent@, now);
                    assert(queue@.len() == 0) by {
                        if queue@.len() > 0 {
                            assert(out@.len() >= eff);
                            assert(out@.len() + (if body@.len() > 0 {
                                1int
                            } else {
                                0int
                            }) <= start + consumed.len() + (qv0.len() - queue@.len()));
                        }
                    }
                    assert(qv0.take(qv0.len() as int) =~= qv0);
                }
            }
            if body.len() > 0 && out.len() < eff {
                let seq = self.take_seq();
                let ghost out_b = out@;
                out.push(Session::build_datagram(FLAG_VALID, seq, &body));
                proof {
                    assert(out@.subrange(0, out_head.len() as int) =~= out_head) by {
                        assert forall|w: int|
                            0 <= w < out_head.len() implies out@[w] == out_head[w] by {
                            assert(out_b.subrange(0, out_head.len() as int)[w] == out_b[w]);
                            assert(out@[w] == out_b[w]);
                        }
                    }
                    if g_on {
                        Session::lemma_bodies_from_snoc(out_b, start, out@.last());
                        assert(out@.last()@.skip(4) =~= body@);
                        assert(Session::bodies_from(out@, start) == Session::bodies_from(
                            out_b,
                            start,
                        ) + body@) by {
                            assert(out@ =~= out_b.push(out@.last()));
                        }
                        assert(out@.last()@.len() >= 4);
                        assert(out@.last()@[0] == FLAG_VALID);
                        assert forall|i: int|
                            out_head.len() <= i < out@.len() implies (#[trigger] out@[i])@.len()
                                >= 4 && out@[i]@[0] == FLAG_VALID by {
                            if i < out_b.len() {
                                assert(out@[i] == out_b[i]);
                            }
                        }
                    }
                }
                if has_reliable {
                    let nx = if now <= 0xffff_ffff_f000_0000 {
                        now + rto
                    } else {
                        now
                    };
                    self.track_sent(seq, &body, now, nx);
                }
            }
            let ghost qmid = self.queued@;
            let ghost qsnap = queue;
            self.queued.insert(pri, queue);
            proof {
                assert(self.queued@ == qmid.insert(pri as int, qsnap));
                assert forall|p: int, kk: int|
                    0 <= p < 4 && 0 <= kk < self.queued@[p]@.len() implies Session::frame_fits(
                    self.mtu,
                    #[trigger] self.queued@[p]@[kk],
                ) by {
                    if p < pri {
                        assert(self.queued@[p] == qmid[p]);
                    } else if p == pri {
                        assert(self.queued@[p] == qsnap);
                    } else {
                        assert(self.queued@[p] == qmid[p - 1]);
                    }
                }
                if g_on {
                    assert(consumed + qv0 =~= Session::consumed_prefix(qmid0, pri as int + 1));
                    consumed = consumed + qv0;
                    assert(qmid == qall.remove(pri as int));
                    assert forall|p: int| 0 <= p < pri + 1 implies self.queued@[p]@.len() == 0 by {
                        if p < pri {
                            assert(self.queued@[p] == qmid[p]);
                            assert(qmid[p] == qall[p]);
                            assert(qall[p]@.len() == 0);
                        } else {
                            assert(self.queued@[p] == qsnap);
                        }
                    }
                    assert forall|p: int|
                        pri + 1 <= p < 4 implies #[trigger] self.queued@[p]@ == qmid0[p]@ by {
                        assert(self.queued@[p] == qmid[p - 1]);
                        assert(qmid[p - 1] == qall[p]);
                        assert(qall[p]@ == qmid0[p]@);
                    }
                }
            }
            pri = pri + 1;
        }
        proof {
            if g_on {
                assert(Session::consumed_prefix(qmid0, 4) == Session::queued_views(qmid0));
            }
        }
        out
    }

    /// Records one sent reliable datagram for retransmission, replacing any
    /// stale entry that still carries the same sequence from a full wrap.
    fn track_sent(&mut self, seq: u32, body: &Vec<u8>, now: u64, next_send: u64)
        requires
            old(self).wf_core(),
            seq < 0x1000000,
        ensures
            final(self).wf_core(),
            final(self).queued@ == old(self).queued@,
            final(self).state == old(self).state,
            final(self).incoming_acks@ == old(self).incoming_acks@,
            final(self).incoming_naks@ == old(self).incoming_naks@,
            final(self).mtu == old(self).mtu,
            final(self).window == old(self).window,
            final(self).acks@ == old(self).acks@,
            final(self).nacks@ == old(self).nacks@,
    {
        let mut k: usize = 0;
        let mut found = false;
        while k < self.sent.len()
            invariant
                k <= self.sent@.len(),
                found == exists|w: int| 0 <= w < k && (#[trigger] self.sent@[w]).seq == seq,
                *self == *old(self),
            decreases self.sent@.len() - k,
        {
            if self.sent[k].seq == seq {
                proof {
                    assert(0 <= k < k + 1 && self.sent@[k as int].seq == seq);
                }
                found = true;
            }
            k = k + 1;
        }
        if found {
            return;
        }
        proof {
            assert forall|q: int| 0 <= q < self.sent@.len() implies (#[trigger] self.sent@[q]).seq
                != seq by {
                if self.sent@[q].seq == seq {
                    assert(exists|w: int|
                        0 <= w < self.sent@.len() && (#[trigger] self.sent@[w]).seq == seq);
                }
            }
        }
        let mut copy: Vec<u8> = Vec::new();
        crate::codec::append_bytes(body, &mut copy);
        self.sent.push(SentDatagram { seq, body: copy, send_time: now, next_send });
        proof {
            assert forall|q1: int, q2: int|
                0 <= q1 < q2 < self.sent@.len() implies (#[trigger] self.sent@[q1]).seq != (
            #[trigger] self.sent@[q2]).seq by {
                if q2 == self.sent@.len() - 1 {
                    assert(self.sent@[q1] == old(self).sent@[q1]);
                }
            }
        }
    }

    /// Everything outside the timer-driven fields is untouched by a tick.
    pub open spec fn tick_frame(a: Session, b: Session) -> bool {
        &&& b == (Session {
            state: b.state,
            last_disconnect: b.last_disconnect,
            last_ping: b.last_ping,
            queued: b.queued,
            splits: b.splits,
            order_write: b.order_write,
            seq_write: b.seq_write,
            ..a
        })
        &&& b.order_write@ == a.order_write@
        &&& b.seq_write@ == a.seq_write@
    }

    /// Lifecycle timers, in any state that is not already closed: with
    /// nothing heard for the session timeout the session closes as timed out;
    /// with nothing heard for the stale span a keep-alive ping is queued at
    /// the head priority, at most once per span. Stale split-reassembly
    /// entries are evicted on every tick.
    pub fn tick(&mut self, now: u64)
        requires
            old(self).wf(),
        ensures
            final(self).wf(),
            Session::tick_frame(*old(self), *final(self)),
            // stale reassembly entries leave; fresh ones stay unchanged
            forall|k: int|
                0 <= k < final(self).splits.entries@.len() ==> crate::split::split_entry_in(
                    old(self).splits.entries@,
                    #[trigger] final(self).splits.entries@[k],
                ) && now < final(self).splits.entries@[k].first_arrival
                    + crate::split::SPLIT_STALE_MS,
            forall|j: int|
                0 <= j < old(self).splits.entries@.len() && now < (
                #[trigger] old(self).splits.entries@[j]).first_arrival
                    + crate::split::SPLIT_STALE_MS ==> crate::split::split_entry_in(
                    final(self).splits.entries@,
                    old(self).splits.entries@[j],
                ),
            // idle for the whole timeout: closed as timed out, in any state
            old(self).state != ConnState::Disconnected && now >= old(self).last_activity
                + SESSION_TIMEOUT_MS ==> final(self).state == ConnState::Disconnected && final(self).last_disconnect == Some(DisconnectReason::TimedOut) && final(self).queued@ == old(self).queued@ && final(self).last_ping == old(self).last_ping,
            !(old(self).state != ConnState::Disconnected && now >= old(self).last_activity
                + SESSION_TIMEOUT_MS) ==> final(self).state == old(self).state && final(self).last_disconnect == old(self).last_disconnect,
            // idle past the stale span: exactly one keep-alive ping is queued
            (old(self).state != ConnState::Disconnected && now < old(self).last_activity
                + SESSION_TIMEOUT_MS && now >= old(self).last_activity + SESSION_STALE_MS && now
                >= old(self).last_ping + SESSION_STALE_MS) ==> ({
                let ping = RaknetPacket::ConnectedPing(
                    crate::packets::ConnectedPing { ping_time: now },
                );
                let q0 = old(self).queued@[0]@;
                let q1 = final(self).queued@[0]@;
                &&& final(self).last_ping == now
                &&& q1.len() == q0.len() + 1
                &&& q1.subrange(0, q0.len() as int) == q0
                &&& q1.last()@.payload == ping.spec_enc()
                &&& q1.last()@.reliability == Reliability::Unreliable
                &&& !q1.last()@.is_split
                &&& forall|j: int|
                    1 <= j < 4 ==> #[trigger] final(self).queued@[j] == old(self).queued@[j]
            }),
            !(old(self).state != ConnState::Disconnected && now < old(self).last_activity
                + SESSION_TIMEOUT_MS && now >= old(self).last_activity + SESSION_STALE_MS && now
                >= old(self).last_ping + SESSION_STALE_MS) ==> final(self).queued@ == old(self).queued@ && final(self).last_ping == old(self).last_ping,
    {
        self.splits.sweep(now);
        if self.state != ConnState::Disconnected {
            if now >= self.last_activity && now - self.last_activity >= SESSION_TIMEOUT_MS {
                self.state = ConnState::Disconnected;
                self.last_disconnect = Some(DisconnectReason::TimedOut);
                return;
            }
            if now >= self.last_activity && now - self.last_activity >= SESSION_STALE_MS && (now
                >= self.last_ping && now - self.last_ping >= SESSION_STALE_MS) {
                self.last_ping = now;
                let ping = RaknetPacket::ConnectedPing(
                    crate::packets::ConnectedPing { ping_time: now },
                );
                proof {
                    assert(ping.spec_enc().len() == 9);
                }
                let ghost q0len = self.queued@[0]@.len();
                self.queue_app_packet(&ping, Reliability::Unreliable, 0, RakPriority::Immediate);
                proof {
                    let m = Session::spec_chunk_size(self.mtu, Reliability::Unreliable, 9);
                    let cs = crate::split::chunks(ping.spec_enc(), m);
                    assert(cs =~= seq![ping.spec_enc()]);
                    assert(self.queued@[0]@.len() == q0len + 1);
                    assert(self.queued@[0]@[q0len as int + 0]@.payload == cs[0]);
                    assert(self.queued@[0]@[q0len as int + 0]@.reliability
                        == Reliability::Unreliable);
                    assert(self.queued@[0]@.last() == self.queued@[0]@[q0len as int]);
                }
            }
        }
    }
}

/// The due count never exceeds the number of entries.
pub proof fn lemma_count_due_le(s: Seq<SentDatagram>, now: u64)
    ensures
        0 <= Session::count_due(s, now) <= s.len(),
    decreases s.len(),
{
    if s.len() > 0 {
        lemma_count_due_le(s.drop_first(), now);
    }
}

/// Shorthand carried through the flush loops: the emitted head matches the
/// pending ACK/NACK ranges the flush began with.
pub open spec fn emission_ok_carry(a: Session, limit: int, win: SlidingWindow, head: Seq<Vec<u8>>) -> bool {
    Session::emission_head_ok(a.acks@, a.nacks@, limit, win.cwnd as int, a.send_seq, head)
}

/// ACK coverage: where the processed ranges cover every tracked sequence,
/// nothing remains tracked afterwards. The hypotheses are exactly what
/// `process_incoming_acks` ensures of the tracked set before and after.
pub proof fn lemma_full_ack_empties(
    sent0: Seq<SentDatagram>,
    ranges: Seq<SequenceRange>,
    sent1: Seq<SentDatagram>,
)
    requires
        forall|k: int|
            0 <= k < sent1.len() ==> !covered(ranges, (#[trigger] sent1[k]).seq) && has_seq(
                sent0,
                sent1[k].seq,
            ),
        forall|j: int| 0 <= j < sent0.len() ==> covered(ranges, (#[trigger] sent0[j]).seq),
    ensures
        sent1.len() == 0,
{
    if sent1.len() > 0 {
        let s = sent1[0].seq;
        assert(has_seq(sent0, s));
        let j = choose|j: int| 0 <= j < sent0.len() && (#[trigger] sent0[j]).seq == s;
        assert(covered(ranges, sent0[j].seq));
    }
}

} // verus!
