//! The reliability engine and session scenarios, end to end over bytes.

use raknet::codec::RakAddr;
use raknet::datagram::{decode_acklist, encode_acklist, SequenceRange, FLAG_ACK, FLAG_NACK, FLAG_VALID};
use raknet::dup::DuplicateWindow;
use raknet::frame::EncapsulatedPacket;
use raknet::listener::{ClientHandshake, ListenerCore, OfflineAction};
use raknet::order::OrderingChannel;
use raknet::packets::RaknetPacket;
use raknet::reliability::{RakPriority, Reliability};
use raknet::session::Session;
use raknet::split::{split_payload, SplitAssembler};
use raknet::state::{ConnState, DisconnectReason, OfflineState};
use raknet::window::SlidingWindow;

fn peer() -> RakAddr {
    RakAddr::V4 { ip: [127, 0, 0, 1], port: 40000 }
}

fn user_packet(len: usize) -> RaknetPacket {
    RaknetPacket::UserData { id: 0x86, payload: vec![0x5au8; len - 1] }
}

/// Splitting then joining gives the payload back, whatever the order the
/// fragments arrive in.
#[test]
fn split_then_reassemble_identity() {
    let payload: Vec<u8> = (0..5000u32).map(|k| (k % 251) as u8).collect();
    let max = 1400 - 32;
    let parts = split_payload(&payload, max);
    assert_eq!(parts.len(), 4);
    let mut sender = Session::new(1400, 1, peer(), 0);
    sender.queue_app_packet(
        &RaknetPacket::UserData { id: 0x80, payload: payload[1..].to_vec() },
        Reliability::ReliableOrdered,
        2,
        RakPriority::Normal,
    );
    // the queued fragments share the split id and ordering index, carry
    // indices zero to three, and take consecutive reliable indices
    let frames = &sender.queued[2];
    assert_eq!(frames.len(), 4);
    let id0 = frames[0].split.as_ref().unwrap().id;
    let oi0 = frames[0].ordering_index.unwrap();
    for (k, f) in frames.iter().enumerate() {
        let si = f.split.as_ref().unwrap();
        assert_eq!(si.count, 4);
        assert_eq!(si.id, id0);
        assert_eq!(si.index, k as u32);
        assert_eq!(f.ordering_index.unwrap(), oi0);
        assert_eq!(f.ordering_channel, Some(2));
        assert_eq!(f.reliable_index.unwrap().value(), k as u32);
    }
    // feeding the fragments to an assembler, last first, yields the payload
    let mut assembler = SplitAssembler::new();
    let mut got = None;
    for k in [3usize, 0, 2, 1] {
        let f = clone_frame(&frames[k]);
        if let Some(whole) = assembler.add(f, 0) {
            got = Some(whole);
        }
    }
    let whole = got.expect("reassembly should complete");
    let mut rebuilt = vec![0x80u8];
    rebuilt.extend_from_slice(&payload[1..]);
    assert_eq!(whole.payload, rebuilt);
    assert_eq!(whole.reliability, Reliability::ReliableOrdered);
}

fn clone_frame(f: &EncapsulatedPacket) -> EncapsulatedPacket {
    EncapsulatedPacket {
        reliability: f.reliability,
        is_split: f.is_split,
        needs_bas: f.needs_bas,
        bit_length: f.bit_length,
        reliable_index: f.reliable_index,
        sequence_index: f.sequence_index,
        ordering_index: f.ordering_index,
        ordering_channel: f.ordering_channel,
        split: f.split,
        payload: f.payload.clone(),
    }
}

/// A replayed reliable frame is delivered exactly once.
#[test]
fn duplicate_reliable_frame_delivered_once() {
    let mut sender = Session::new(1400, 1, peer(), 0);
    sender.queue_app_packet(
        &user_packet(10),
        Reliability::Reliable,
        0,
        RakPriority::Normal,
    );
    let datagrams = sender.flush(0, 120);
    assert_eq!(datagrams.len(), 1);
    let mut receiver = Session::new(1400, 2, peer(), 0);
    let first = receiver.handle_datagram(&datagrams[0], 1).unwrap();
    assert_eq!(first.len(), 1);
    // the same bytes again: accounted for ACK purposes, but not delivered
    let second = receiver.handle_datagram(&datagrams[0], 2).unwrap();
    assert_eq!(second.len(), 0);
    let third = receiver.handle_datagram(&datagrams[0], 3).unwrap();
    assert_eq!(third.len(), 0);
}

/// The duplicate window itself: fresh once, then seen, across a slide.
#[test]
fn duplicate_window_marks_and_slides() {
    let mut w = DuplicateWindow::new();
    assert!(w.check_and_mark(5));
    assert!(!w.check_and_mark(5));
    assert!(w.check_and_mark(6));
    // far ahead: slides the window; the old index now reads as behind
    assert!(w.check_and_mark(70000));
    assert!(!w.check_and_mark(70000));
    assert!(!w.check_and_mark(5));
}

/// ACKs covering every tracked datagram empty the retransmit set.
#[test]
fn acks_empty_the_retransmit_set() {
    let mut sender = Session::new(1400, 1, peer(), 0);
    // a grown congestion window lets one flush emit all three datagrams
    sender.window.cwnd = 8;
    for _ in 0..3 {
        sender.queue_app_packet(
            &user_packet(900),
            Reliability::Reliable,
            0,
            RakPriority::Normal,
        );
    }
    let datagrams = sender.flush(0, 120);
    assert_eq!(datagrams.len(), 3);
    assert_eq!(sender.sent.len(), 3);
    // one ACK datagram covering all three sequences
    let mut ack = vec![FLAG_VALID | FLAG_ACK, 0, 0, 0];
    encode_acklist(&vec![SequenceRange { start: 0, end: 2 }], &mut ack);
    sender.handle_datagram(&ack, 5).unwrap();
    sender.flush(5, 120);
    assert_eq!(sender.sent.len(), 0);
}

/// A gap in received datagram sequences earns the peer a NACK, and a NACK
/// makes the sender re-emit the missing datagram under a fresh sequence.
#[test]
fn nack_driven_retransmit() {
    // receiver side: sequences 10, 11, 13 arrive; 12 is missed
    let mut receiver = Session::new(1400, 2, peer(), 0);
    for seq in [10u32, 11, 13] {
        let mut sender = Session::new(1400, 1, peer(), 0);
        sender.send_seq = seq;
        sender.queue_app_packet(
            &user_packet(10),
            Reliability::Reliable,
            0,
            RakPriority::Normal,
        );
        let d = sender.flush(0, 120);
        receiver.handle_datagram(&d[0], 1).unwrap();
    }
    receiver.window.cwnd = 8;
    let out = receiver.flush(2, 120);
    // first an ACK datagram, then the NACK naming exactly [12, 12]
    assert!(out.len() >= 2);
    assert_eq!(out[0][0], FLAG_VALID | FLAG_ACK);
    assert_eq!(out[1][0], FLAG_VALID | FLAG_NACK);
    let (nacks, _) = decode_acklist(&out[1], 4).unwrap();
    assert_eq!(nacks, vec![SequenceRange { start: 12, end: 12 }]);
    // sender side: a tracked datagram hit by that NACK goes out again
    let mut sender = Session::new(1400, 1, peer(), 0);
    sender.send_seq = 12;
    sender.queue_app_packet(&user_packet(10), Reliability::Reliable, 0, RakPriority::Normal);
    let first = sender.flush(0, 120);
    assert_eq!(first.len(), 1);
    assert_eq!(sender.sent.len(), 1);
    sender.handle_datagram(&out[1], 10).unwrap();
    let again = sender.flush(11, 120);
    assert_eq!(again.len(), 1, "the NACK schedules an immediate resend");
    assert!(again[0][0] & FLAG_VALID != 0);
}

/// Frames of one channel delivered in a permuted order come out in order.
#[test]
fn ordered_delivery_across_permutation() {
    let mut sender = Session::new(1400, 1, peer(), 0);
    let mut datagrams = Vec::new();
    // flush after each message so the transport can permute whole datagrams
    for k in 0..5u8 {
        sender.queue_app_packet(
            &RaknetPacket::UserData { id: 0x80, payload: vec![k; 3] },
            Reliability::ReliableOrdered,
            0,
            RakPriority::Normal,
        );
        let mut out = sender.flush(0, 120);
        datagrams.append(&mut out);
    }
    assert_eq!(datagrams.len(), 5);
    let mut receiver = Session::new(1400, 2, peer(), 0);
    let mut delivered: Vec<Vec<u8>> = Vec::new();
    for k in [4usize, 2, 0, 3, 1] {
        for p in receiver.handle_datagram(&datagrams[k], 1).unwrap() {
            if let RaknetPacket::UserData { payload, .. } = p {
                delivered.push(payload);
            }
        }
    }
    assert_eq!(delivered.len(), 5);
    for (k, d) in delivered.iter().enumerate() {
        assert_eq!(d, &vec![k as u8; 3]);
    }
}

/// The ordering channel alone: early indices wait, the expected one drains.
#[test]
fn ordering_channel_release_rules() {
    let mut ch = OrderingChannel::new();
    assert!(ch.push(2, vec![2]).is_empty());
    assert!(ch.push(1, vec![1]).is_empty());
    let out = ch.push(0, vec![0]);
    assert_eq!(out, vec![vec![0], vec![1], vec![2]]);
    // a stale repeat is dropped
    assert!(ch.push(1, vec![9]).is_empty());
}

/// The offline handshake, both sides, over decision functions.
#[test]
fn offline_handshake_completes() {
    let server = ListenerCore::new(0x5EED);
    let mut client = ClientHandshake::new(0xDEADBEEF, peer());
    // client probes; server grants the capped MTU
    let ocr1 = client.on_timer().expect("first probe");
    let probe_len = match &ocr1 {
        RaknetPacket::OpenConnectionRequest1(r) => 17 + r.padding + 1,
        _ => panic!("expected the first request"),
    };
    let action = server.on_offline_packet(&ocr1, probe_len);
    let reply1 = match action {
        OfflineAction::Reply(p) => p,
        _ => panic!("expected a reply"),
    };
    match &reply1 {
        RaknetPacket::OpenConnectionReply1(r) => assert_eq!(r.mtu, 1400),
        _ => panic!("expected the first reply"),
    }
    assert!(client.on_offline_packet(&reply1, 100).is_none());
    assert_eq!(client.offline, OfflineState::Handshake2);
    // second round opens the session
    let ocr2 = client.on_timer().expect("second probe");
    let action = server.on_offline_packet(&ocr2, 100);
    let (mtu, reply2) = match action {
        OfflineAction::OpenSession(mtu, p) => (mtu, p),
        _ => panic!("expected a session"),
    };
    assert_eq!(mtu, 1400);
    let creq = client
        .on_offline_packet(&reply2, 7777)
        .expect("the completed handshake yields the connection request");
    assert_eq!(client.offline, OfflineState::HandshakeCompleted);
    // the connection request runs reliably to the server session
    let mut client_session = Session::new(mtu, 0xDEADBEEF, peer(), 0);
    client_session.queue_app_packet(&creq, Reliability::ReliableOrdered, 0, RakPriority::High);
    let wire = client_session.flush(0, 120);
    let mut server_session = Session::new(mtu, 0x5EED, peer(), 0);
    let arrived = server_session.handle_datagram(&wire[0], 1).unwrap();
    assert_eq!(arrived.len(), 1);
    let accepted = server_session.on_control_packet(&arrived[0], 8888).expect("acceptance");
    assert_eq!(server_session.state, ConnState::Connect);
    match &accepted {
        RaknetPacket::ConnectionRequestAccepted(a) => {
            assert_eq!(a.address, peer());
            assert_eq!(a.system_index, 0);
            assert_eq!(a.system_addresses[0], RakAddr::V4 { ip: [127, 0, 0, 1], port: 0 });
            assert_eq!(a.request_timestamp, 7777);
            assert_eq!(a.accepted_timestamp, 8888);
        },
        _ => panic!("expected acceptance"),
    }
    // and back: the client answers with its incoming-connection notice
    let nic = client_session.on_control_packet(&accepted, 9999).expect("notice");
    assert_eq!(client_session.state, ConnState::Connect);
    assert!(matches!(nic, RaknetPacket::NewIncomingConnection(_)));
}

/// A wrong protocol version earns the incompatibility notice, no session.
#[test]
fn protocol_mismatch_is_refused() {
    let server = ListenerCore::new(0x5EED);
    let bad = RaknetPacket::OpenConnectionRequest1(raknet::packets::OpenConnectionRequest1 {
        magic: raknet::codec::default_magic(),
        protocol_version: 10,
        padding: 100,
    });
    match server.on_offline_packet(&bad, 118) {
        OfflineAction::Reply(RaknetPacket::IncompatibleProtocolVersion(r)) => {
            assert_eq!(r.protocol, 11);
            assert_eq!(r.server_guid, 0x5EED);
        },
        _ => panic!("expected the incompatibility notice"),
    }
}

/// A quiet session pings after the stale span and closes at the timeout.
#[test]
fn idle_timeout_closes_the_session() {
    let mut s = Session::new(1400, 1, peer(), 0);
    s.state = ConnState::Connect;
    s.tick(5000);
    let out = s.flush(5000, 120);
    assert_eq!(out.len(), 1, "the stale session pings");
    s.tick(10000);
    assert_eq!(s.state, ConnState::Disconnected);
    assert_eq!(s.last_disconnect, Some(DisconnectReason::TimedOut));
}

/// An unconnected ping earns a pong echoing its clock and the advertisement.
#[test]
fn unconnected_ping_earns_advertised_pong() {
    let mut server = ListenerCore::new(0x5EED);
    server.set_advertisement(b"MCPE;Verified;19132".to_vec());
    assert_eq!(server.get_advertisement(), b"MCPE;Verified;19132".to_vec());
    let ping = RaknetPacket::UnconnectedPing(raknet::packets::UnconnectedPing {
        ping_time: 424242,
        magic: raknet::codec::default_magic(),
    });
    match server.on_offline_packet(&ping, 33) {
        OfflineAction::Reply(RaknetPacket::UnconnectedPong(p)) => {
            assert_eq!(p.ping_time, 424242);
            assert_eq!(p.server_guid, 0x5EED);
            assert_eq!(p.advertisement, Some(b"MCPE;Verified;19132".to_vec()));
        },
        _ => panic!("expected a pong"),
    }
}

/// A connected ping is answered with a pong echoing the clock.
#[test]
fn connected_ping_earns_pong() {
    let mut s = Session::new(1400, 1, peer(), 0);
    let ping = RaknetPacket::ConnectedPing(raknet::packets::ConnectedPing { ping_time: 77 });
    match s.on_control_packet(&ping, 99) {
        Some(RaknetPacket::ConnectedPong(p)) => {
            assert_eq!(p.ping_time, 77);
            assert_eq!(p.pong_time, 99);
        },
        _ => panic!("expected a pong"),
    }
    // a disconnection notice closes the session with the remote-peer reason
    let bye = RaknetPacket::DisconnectionNotification(
        raknet::packets::DisconnectionNotification {},
    );
    assert!(s.on_control_packet(&bye, 100).is_none());
    assert_eq!(s.state, ConnState::Disconnected);
    assert_eq!(s.last_disconnect, Some(DisconnectReason::ClosedByRemotePeer));
}

/// The congestion window grows on acknowledgements and halves on loss.
#[test]
fn congestion_window_reacts() {
    let mut w = SlidingWindow::new();
    assert_eq!(w.cwnd, 1);
    w.on_ack(50);
    w.on_ack(50);
    assert_eq!(w.cwnd, 3);
    w.on_nak();
    assert_eq!(w.cwnd, 1);
    assert_eq!(w.ssthresh, 1);
    assert!(w.rto() >= 30);
}

/// The client dial steps its MTU probe down and gives up at the budget.
#[test]
fn client_dial_retries_and_fails() {
    let mut c = ClientHandshake::new(7, peer());
    let mut probes = Vec::new();
    while let Some(p) = c.on_timer() {
        if let RaknetPacket::OpenConnectionRequest1(r) = p {
            probes.push(18 + r.padding);
        }
    }
    assert_eq!(probes.len(), 10, "ten attempts, then failure");
    assert_eq!(probes[0], 1400);
    assert_eq!(probes[4], 1200);
    assert_eq!(probes[9], 576);
    assert!(c.on_timer().is_none());
}

/// A sequenced send carries a sequence index and the channel's current
/// ordering index, and advances only the sequence counter.
#[test]
fn sequenced_send_carries_indices() {
    let mut sender = Session::new(1400, 1, peer(), 0);
    sender.queue_app_packet(
        &user_packet(10),
        Reliability::UnreliableSequenced,
        3,
        RakPriority::Normal,
    );
    sender.queue_app_packet(
        &user_packet(10),
        Reliability::ReliableSequenced,
        3,
        RakPriority::Normal,
    );
    let frames = &sender.queued[2];
    assert_eq!(frames.len(), 2);
    assert_eq!(frames[0].sequence_index.unwrap().value(), 0);
    assert_eq!(frames[1].sequence_index.unwrap().value(), 1);
    assert_eq!(frames[0].ordering_index.unwrap().value(), 0);
    assert_eq!(frames[1].ordering_index.unwrap().value(), 0);
    assert_eq!(frames[0].ordering_channel, Some(3));
    assert!(frames[0].reliable_index.is_none());
    assert!(frames[1].reliable_index.is_some());
    assert_eq!(sender.seq_write[3], 2);
    assert_eq!(sender.order_write[3], 0, "sequenced sends leave the ordered stream alone");
}

/// A first handshake request without the known magic is ignored.
#[test]
fn wrong_magic_is_ignored() {
    let server = ListenerCore::new(0x5EED);
    let bad = RaknetPacket::OpenConnectionRequest1(raknet::packets::OpenConnectionRequest1 {
        magic: vec![0u8; 16],
        protocol_version: 11,
        padding: 100,
    });
    assert!(matches!(server.on_offline_packet(&bad, 118), OfflineAction::Ignore));
}

/// A session in a handshake state also times out when idle too long.
#[test]
fn idle_timeout_applies_in_any_state() {
    let mut s = Session::new(1400, 1, peer(), 0);
    assert_eq!(s.state, ConnState::Unconnected);
    s.tick(10000);
    assert_eq!(s.state, ConnState::Disconnected);
    assert_eq!(s.last_disconnect, Some(DisconnectReason::TimedOut));
}

/// Stale split-reassembly entries are evicted at tick time.
#[test]
fn stale_split_entries_are_evicted() {
    let mut receiver = Session::new(1400, 2, peer(), 0);
    let mut sender = Session::new(1400, 1, peer(), 0);
    let payload: Vec<u8> = vec![0x80u8; 3000];
    sender.queue_app_packet(
        &RaknetPacket::UserData { id: 0x80, payload: payload[1..].to_vec() },
        Reliability::ReliableOrdered,
        0,
        RakPriority::Normal,
    );
    // deliver only the first fragment, so reassembly stays outstanding
    let frames = &sender.queued[2];
    let f = clone_frame(&frames[0]);
    let mut out = Vec::new();
    receiver.handle_encapsulated(f, 100, &mut out).unwrap();
    assert!(out.is_empty());
    assert_eq!(receiver.splits.entries.len(), 1);
    // well before the stale span the entry survives a tick
    receiver.tick(4000);
    assert_eq!(receiver.splits.entries.len(), 1);
    // past it, the entry is gone
    receiver.tick(5200);
    assert_eq!(receiver.splits.entries.len(), 0);
}

/// The flush budget is capped by the congestion window.
#[test]
fn flush_respects_the_congestion_window() {
    let mut sender = Session::new(1400, 1, peer(), 0);
    for _ in 0..3 {
        sender.queue_app_packet(&user_packet(900), Reliability::Reliable, 0, RakPriority::Normal);
    }
    assert_eq!(sender.window.cwnd, 1);
    let first = sender.flush(0, 120);
    assert_eq!(first.len(), 1, "a fresh window admits one datagram per flush");
}

/// A payload exactly at the per-frame budget stays unsplit, for every class.
#[test]
fn threshold_payload_stays_unsplit() {
    for rel in [Reliability::Reliable, Reliability::ReliableSequenced] {
        let mut sender = Session::new(1400, 1, peer(), 0);
        // 1368 bytes: one id byte plus 1367 of payload
        sender.queue_app_packet(
            &RaknetPacket::UserData { id: 0x80, payload: vec![7u8; 1367] },
            rel,
            0,
            RakPriority::Normal,
        );
        let frames = &sender.queued[2];
        assert_eq!(frames.len(), 1, "a threshold payload must not split");
        assert!(!frames[0].is_split);
        assert_eq!(frames[0].payload.len(), 1368);
    }
}
