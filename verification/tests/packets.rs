//! Round trips of every control packet body and of the framing layers.

use raknet::codec::{default_magic, DecodeError, RakAddr};
use raknet::datagram::{
    decode_acklist, encode_acklist, Datagram, DatagramHeader, SequenceRange, FLAG_VALID,
};
use raknet::frame::{EncapsulatedPacket, SplitInfo};
use raknet::packets::{
    AlreadyConnected, ConnectedPing, ConnectedPong, ConnectionRequest, ConnectionRequestAccepted,
    ConnectionRequestFailed, IncompatibleProtocolVersion, NewIncomingConnection,
    OpenConnectionReply1, OpenConnectionReply2, OpenConnectionRequest1, OpenConnectionRequest2,
    RaknetPacket, UnconnectedPing, UnconnectedPong,
};
use raknet::reliability::Reliability;
use raknet::sequence::Sequence24;
use raknet::state::DisconnectReason;

fn ten_addrs() -> Vec<RakAddr> {
    let mut v = vec![RakAddr::V4 { ip: [127, 0, 0, 1], port: 0 }];
    for _ in 1..10 {
        v.push(RakAddr::V4 { ip: [0, 0, 0, 0], port: 0 });
    }
    v
}

#[test]
fn unconnected_ping_roundtrip() {
    let pkt = UnconnectedPing { ping_time: 123, magic: vec![0x23; 16] };
    let mut buf = Vec::new();
    pkt.encode_body(&mut buf);
    let (decoded, _) = UnconnectedPing::decode_body(&buf, 0).unwrap();
    assert_eq!(decoded.ping_time, pkt.ping_time);
    assert_eq!(decoded.magic, pkt.magic);
}

#[test]
fn unconnected_pong_roundtrip() {
    let pkt = UnconnectedPong {
        ping_time: 1,
        server_guid: 2,
        magic: vec![0x45; 16],
        advertisement: None,
    };
    let mut buf = Vec::new();
    pkt.encode_body(&mut buf);
    let (decoded, _) = UnconnectedPong::decode_body(&buf, 0).unwrap();
    assert_eq!(decoded.ping_time, pkt.ping_time);
    assert_eq!(decoded.server_guid, pkt.server_guid);
    assert_eq!(decoded.magic, pkt.magic);
}

#[test]
fn open_connection_request_1_roundtrip() {
    let pkt = OpenConnectionRequest1 {
        magic: default_magic(),
        protocol_version: 11,
        padding: 1382,
    };
    let mut buf = Vec::new();
    pkt.encode_body(&mut buf);
    assert_eq!(buf.len(), 16 + 1 + 1382);
    let (decoded, _) = OpenConnectionRequest1::decode_body(&buf, 0).unwrap();
    assert_eq!(decoded.magic, pkt.magic);
    assert_eq!(decoded.protocol_version, 11);
    assert_eq!(decoded.padding, 1382);
}

#[test]
fn open_connection_reply_1_roundtrip_both_cookie_layouts() {
    for cookie in [None, Some(0xCAFEu32)] {
        let pkt = OpenConnectionReply1 {
            magic: default_magic(),
            server_guid: 77,
            cookie,
            mtu: 1400,
        };
        let mut buf = Vec::new();
        pkt.encode_body(&mut buf);
        let (decoded, end) = OpenConnectionReply1::decode_body(&buf, 0).unwrap();
        assert_eq!(end, buf.len());
        assert_eq!(decoded.server_guid, 77);
        assert_eq!(decoded.cookie, cookie);
        assert_eq!(decoded.mtu, 1400);
    }
}

#[test]
fn open_connection_request_2_both_layouts() {
    let addr = RakAddr::V4 { ip: [10, 0, 0, 2], port: 19132 };
    // plain layout, no cookie
    let plain = OpenConnectionRequest2 {
        magic: default_magic(),
        cookie: None,
        client_proof: false,
        server_addr: addr,
        mtu: 1400,
        client_guid: 0xDEADBEEF,
    };
    let mut buf = Vec::new();
    plain.encode_body(&mut buf);
    let (decoded, _) = OpenConnectionRequest2::decode_body(&buf, 0).unwrap();
    assert_eq!(decoded.cookie, None);
    assert_eq!(decoded.server_addr, addr);
    assert_eq!(decoded.mtu, 1400);
    assert_eq!(decoded.client_guid, 0xDEADBEEF);
    // cookie-bearing layout
    let with_cookie = OpenConnectionRequest2 {
        magic: default_magic(),
        cookie: Some(42),
        client_proof: true,
        server_addr: addr,
        mtu: 1200,
        client_guid: 7,
    };
    let mut buf = Vec::new();
    with_cookie.encode_body(&mut buf);
    let (decoded, _) = OpenConnectionRequest2::decode_body(&buf, 0).unwrap();
    assert_eq!(decoded.cookie, Some(42));
    assert!(decoded.client_proof);
    assert_eq!(decoded.server_addr, addr);
    assert_eq!(decoded.mtu, 1200);
    assert_eq!(decoded.client_guid, 7);
}

#[test]
fn open_connection_reply_2_roundtrip() {
    let pkt = OpenConnectionReply2 {
        magic: default_magic(),
        server_guid: 5,
        server_addr: RakAddr::V4 { ip: [1, 2, 3, 4], port: 99 },
        mtu: 1400,
        security: false,
    };
    let mut buf = Vec::new();
    pkt.encode_body(&mut buf);
    let (decoded, end) = OpenConnectionReply2::decode_body(&buf, 0).unwrap();
    assert_eq!(end, buf.len());
    assert_eq!(decoded.server_guid, 5);
    assert_eq!(decoded.mtu, 1400);
    assert!(!decoded.security);
}

#[test]
fn guid_packets_roundtrip() {
    let mut buf = Vec::new();
    AlreadyConnected { magic: default_magic(), server_guid: 9 }.encode_body(&mut buf);
    let (d, _) = AlreadyConnected::decode_body(&buf, 0).unwrap();
    assert_eq!(d.server_guid, 9);
    let mut buf = Vec::new();
    ConnectionRequestFailed { magic: default_magic(), server_guid: 8 }.encode_body(&mut buf);
    let (d, _) = ConnectionRequestFailed::decode_body(&buf, 0).unwrap();
    assert_eq!(d.server_guid, 8);
    let mut buf = Vec::new();
    IncompatibleProtocolVersion { protocol: 11, magic: default_magic(), server_guid: 3 }
        .encode_body(&mut buf);
    let (d, _) = IncompatibleProtocolVersion::decode_body(&buf, 0).unwrap();
    assert_eq!(d.protocol, 11);
    assert_eq!(d.server_guid, 3);
}

#[test]
fn connection_request_and_pings_roundtrip() {
    let mut buf = Vec::new();
    ConnectionRequest { server_guid: 0xDEADBEEF, timestamp: 555, secure: false }
        .encode_body(&mut buf);
    let (d, _) = ConnectionRequest::decode_body(&buf, 0).unwrap();
    assert_eq!(d.server_guid, 0xDEADBEEF);
    assert_eq!(d.timestamp, 555);
    assert!(!d.secure);
    let mut buf = Vec::new();
    ConnectedPing { ping_time: 11 }.encode_body(&mut buf);
    assert_eq!(ConnectedPing::decode_body(&buf, 0).unwrap().0.ping_time, 11);
    let mut buf = Vec::new();
    ConnectedPong { ping_time: 11, pong_time: 22 }.encode_body(&mut buf);
    let (d, _) = ConnectedPong::decode_body(&buf, 0).unwrap();
    assert_eq!((d.ping_time, d.pong_time), (11, 22));
}

#[test]
fn accepted_and_incoming_roundtrip() {
    let client = RakAddr::V4 { ip: [127, 0, 0, 1], port: 54321 };
    let pkt = ConnectionRequestAccepted {
        address: client,
        system_index: 0,
        system_addresses: ten_addrs(),
        request_timestamp: 1000,
        accepted_timestamp: 1001,
    };
    let mut buf = Vec::new();
    pkt.encode_body(&mut buf);
    let (d, end) = ConnectionRequestAccepted::decode_body(&buf, 0).unwrap();
    assert_eq!(end, buf.len());
    assert_eq!(d.address, client);
    assert_eq!(d.system_index, 0);
    assert_eq!(d.system_addresses, ten_addrs());
    assert_eq!(d.request_timestamp, 1000);
    assert_eq!(d.accepted_timestamp, 1001);
    let pkt = NewIncomingConnection {
        server_address: client,
        system_addresses: ten_addrs(),
        request_timestamp: 7,
        accepted_timestamp: 8,
    };
    let mut buf = Vec::new();
    pkt.encode_body(&mut buf);
    let (d, end) = NewIncomingConnection::decode_body(&buf, 0).unwrap();
    assert_eq!(end, buf.len());
    assert_eq!(d.server_address, client);
    assert_eq!(d.request_timestamp, 7);
}

#[test]
fn packet_dispatch_by_id() {
    let mut buf = Vec::new();
    RaknetPacket::UnconnectedPing(UnconnectedPing { ping_time: 9, magic: default_magic() })
        .encode(&mut buf);
    assert_eq!(buf[0], 0x01);
    match RaknetPacket::decode(&buf, 0).unwrap().0 {
        RaknetPacket::UnconnectedPing(p) => assert_eq!(p.ping_time, 9),
        _ => panic!("wrong variant"),
    }
    // user data keeps its id and bytes
    let mut buf = Vec::new();
    RaknetPacket::UserData { id: 0xfe, payload: vec![1, 2, 3] }.encode(&mut buf);
    match RaknetPacket::decode(&buf, 0).unwrap().0 {
        RaknetPacket::UserData { id, payload } => {
            assert_eq!(id, 0xfe);
            assert_eq!(payload, vec![1, 2, 3]);
        },
        _ => panic!("wrong variant"),
    }
    // an unknown control id is rejected
    let buf = vec![0x44u8, 0, 0];
    assert!(matches!(RaknetPacket::decode(&buf, 0), Err(DecodeError::UnknownId(0x44))));
    // the legacy discovery packet reports itself unimplemented
    let buf = vec![0x02u8, 1, 2];
    match RaknetPacket::decode(&buf, 0) {
        Err(DecodeError::UnimplementedPacket { id, payload }) => {
            assert_eq!(id, 0x02);
            assert_eq!(payload, vec![1, 2]);
        },
        _ => panic!("expected UnimplementedPacket"),
    }
}

#[test]
fn disconnect_reason_roundtrip() {
    let mut buf = Vec::new();
    DisconnectReason::TimedOut.encode_raknet(&mut buf);
    assert_eq!(buf, vec![3]);
    let (d, _) = DisconnectReason::decode_raknet(&buf, 0).unwrap();
    assert_eq!(d, DisconnectReason::TimedOut);
    let bad = vec![200u8];
    assert!(matches!(
        DisconnectReason::decode_raknet(&bad, 0),
        Err(DecodeError::UnknownDisconnectReason(200))
    ));
}

#[test]
fn frame_roundtrip_with_all_fields() {
    let f = EncapsulatedPacket {
        reliability: Reliability::ReliableOrdered,
        is_split: true,
        needs_bas: true,
        bit_length: 24,
        reliable_index: Some(Sequence24::new(7)),
        sequence_index: None,
        ordering_index: Some(Sequence24::new(3)),
        ordering_channel: Some(2),
        split: Some(SplitInfo { count: 4, id: 9, index: 1 }),
        payload: vec![0xaa, 0xbb, 0xcc],
    };
    let mut buf = Vec::new();
    f.encode_raknet(&mut buf);
    let (d, end) = EncapsulatedPacket::decode_raknet(&buf, 0).unwrap();
    assert_eq!(end, buf.len());
    assert_eq!(d.reliability, Reliability::ReliableOrdered);
    assert!(d.is_split);
    assert_eq!(d.bit_length, 24);
    assert_eq!(d.reliable_index, Some(Sequence24::new(7)));
    assert_eq!(d.ordering_index, Some(Sequence24::new(3)));
    assert_eq!(d.ordering_channel, Some(2));
    assert_eq!(d.split, Some(SplitInfo { count: 4, id: 9, index: 1 }));
    assert_eq!(d.payload, vec![0xaa, 0xbb, 0xcc]);
}

#[test]
fn frame_zero_length_payload() {
    let f = EncapsulatedPacket {
        reliability: Reliability::Unreliable,
        is_split: false,
        needs_bas: false,
        bit_length: 0,
        reliable_index: None,
        sequence_index: None,
        ordering_index: None,
        ordering_channel: None,
        split: None,
        payload: Vec::new(),
    };
    let mut buf = Vec::new();
    f.encode_raknet(&mut buf);
    assert_eq!(buf.len(), 3);
    let (d, end) = EncapsulatedPacket::decode_raknet(&buf, 0).unwrap();
    assert_eq!(end, 3);
    assert!(d.payload.is_empty());
}

#[test]
fn frame_unknown_reliability_is_rejected() {
    // the flags byte 0xE0 names reliability seven, which does not exist
    let buf = vec![0xE0u8, 0, 0];
    assert!(matches!(
        EncapsulatedPacket::decode_raknet(&buf, 0),
        Err(DecodeError::UnknownReliability(7))
    ));
}

#[test]
fn acklist_roundtrip_including_wrap() {
    let ranges = vec![
        SequenceRange { start: 5, end: 5 },
        SequenceRange { start: 10, end: 13 },
        SequenceRange { start: 0xfffffe, end: 1 },
    ];
    let mut buf = Vec::new();
    encode_acklist(&ranges, &mut buf);
    let (d, end) = decode_acklist(&buf, 0).unwrap();
    assert_eq!(end, buf.len());
    assert_eq!(d, ranges);
}

#[test]
fn datagram_roundtrip() {
    let f = EncapsulatedPacket {
        reliability: Reliability::Reliable,
        is_split: false,
        needs_bas: true,
        bit_length: 16,
        reliable_index: Some(Sequence24::new(0)),
        sequence_index: None,
        ordering_index: None,
        ordering_channel: None,
        split: None,
        payload: vec![0xfe, 0x01],
    };
    let d = Datagram {
        header: DatagramHeader { flags: FLAG_VALID, sequence: Sequence24::new(42) },
        packets: vec![f],
    };
    let mut buf = Vec::new();
    d.encode(&mut buf);
    let decoded = Datagram::decode(&buf, 0).unwrap();
    assert_eq!(decoded.header.flags, FLAG_VALID);
    assert_eq!(decoded.header.sequence.value(), 42);
    assert_eq!(decoded.packets.len(), 1);
    assert_eq!(decoded.packets[0].payload, vec![0xfe, 0x01]);
}
