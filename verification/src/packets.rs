//! Control packet bodies and the tagged sum over them.
//!
//! Each body knows how to encode itself after its ID byte and how to decode
//! itself from the bytes that follow one. `RaknetPacket` dispatches on the ID
//! byte: known control IDs decode their body, IDs of 0x80 and above are
//! captured verbatim as user data, and any other ID fails with `UnknownId`.

use vstd::prelude::*;

use crate::codec::{
    enc_bool, enc_u16_be, enc_u32_be, enc_u64_be, enc_u8, enc_padding, enc_addr, enc_advert,
    dec_bool, dec_u16_be, dec_u32_be, dec_u64_be, dec_u8, dec_addr, dec_advert, decode_bool,
    decode_u16_be, decode_u32_be, decode_u64_be, decode_u8, decode_addr, decode_advert,
    decode_magic, decode_padding, encode_bool, encode_u8, encode_u16_be, encode_u32_be, encode_u64_be,
    encode_magic, encode_padding, encode_addr, encode_advert, append_bytes, read_bytes, DecodeError,
    RakAddr, lemma_u16_be_round_trip, lemma_u32_be_round_trip, lemma_u64_be_round_trip,
    lemma_addr_round_trip, lemma_advert_round_trip, addr_enc_len,
};
use crate::frame::lemma_slice_of_slice;

verus! {

/// Wire ID of each control packet.
pub const ID_CONNECTED_PING: u8 = 0x00;

pub const ID_UNCONNECTED_PING: u8 = 0x01;

pub const ID_UNCONNECTED_PING_OPEN_CONNECTIONS: u8 = 0x02;

pub const ID_CONNECTED_PONG: u8 = 0x03;

pub const ID_OPEN_CONNECTION_REQUEST_1: u8 = 0x05;

pub const ID_OPEN_CONNECTION_REPLY_1: u8 = 0x06;

pub const ID_OPEN_CONNECTION_REQUEST_2: u8 = 0x07;

pub const ID_OPEN_CONNECTION_REPLY_2: u8 = 0x08;

pub const ID_CONNECTION_REQUEST: u8 = 0x09;

pub const ID_CONNECTION_REQUEST_ACCEPTED: u8 = 0x10;

pub const ID_CONNECTION_REQUEST_FAILED: u8 = 0x11;

pub const ID_ALREADY_CONNECTED: u8 = 0x12;

pub const ID_NEW_INCOMING_CONNECTION: u8 = 0x13;

pub const ID_DISCONNECTION_NOTIFICATION: u8 = 0x15;

pub const ID_INCOMPATIBLE_PROTOCOL_VERSION: u8 = 0x19;

pub const ID_UNCONNECTED_PONG: u8 = 0x1c;

// ---------------------------------------------------------------------------
// OpenConnectionRequest1 (0x05): magic, protocol version, MTU-probe padding
// ---------------------------------------------------------------------------

/// First offline handshake packet; its padding sizes the MTU probe.
pub struct OpenConnectionRequest1 {
    pub magic: Vec<u8>,
    pub protocol_version: u8,
    pub padding: usize,
}

impl OpenConnectionRequest1 {
    pub open spec fn wf(self) -> bool {
        self.magic@.len() == 16
    }

    pub open spec fn spec_enc(self) -> Seq<u8> {
        self.magic@ + enc_u8(self.protocol_version) + enc_padding(self.padding as nat)
    }
}

/// Spec decoder: magic, protocol version, padding length, end position. The
/// padding runs to the end of the buffer.
pub open spec fn dec_ocr1(s: Seq<u8>, i: int) -> Result<(Seq<u8>, u8, int, int), DecodeError> {
    if i + 17 <= s.len() {
        Ok((s.subrange(i, i + 16), s[i + 16], s.len() - (i + 17), s.len() as int))
    } else {
        Err(DecodeError::UnexpectedEof)
    }
}

impl OpenConnectionRequest1 {
    pub fn encode_body(&self, out: &mut Vec<u8>)
        requires
            self@.wf(),
        ensures
            final(out)@ == old(out)@ + self.spec_enc(),
    {
        encode_magic(&self.magic, out);
        encode_u8(self.protocol_version, out);
        encode_padding(self.padding, out);
        assert(out@ =~= old(out)@ + self.spec_enc());
    }

    pub fn decode_body(buf: &Vec<u8>, pos: usize) -> (r: Result<
        (OpenConnectionRequest1, usize),
        DecodeError,
    >)
        requires
            pos <= buf@.len(),
        ensures
            match r {
                Ok((p, end)) => dec_ocr1(buf@, pos as int) == Ok::<_, DecodeError>(
                    (p.magic@, p.protocol_version, p.padding as int, end as int),
                ) && p@.wf(),
                Err(e) => dec_ocr1(buf@, pos as int) == Err::<(Seq<u8>, u8, int, int), _>(e),
            },
    {
        let (magic, i1) = match decode_magic(buf, pos) {
            Ok(x) => x,
            Err(e) => return Err(e),
        };
        let (protocol_version, i2) = match decode_u8(buf, i1) {
            Ok(x) => x,
            Err(e) => return Err(e),
        };
        let (padding, end) = decode_padding(buf, i2);
        Ok((OpenConnectionRequest1 { magic, protocol_version, padding }, end))
    }
}

impl View for OpenConnectionRequest1 {
    type V = OpenConnectionRequest1;

    open spec fn view(&self) -> OpenConnectionRequest1 {
        *self
    }
}

/// Encoding an `OpenConnectionRequest1` and decoding the result as the whole
/// remaining buffer yields the same fields.
pub proof fn lemma_ocr1_round_trip(s: Seq<u8>, i: int, magic: Seq<u8>, pv: u8, padding: int)
    requires
        0 <= i,
        magic.len() == 16,
        0 <= padding,
        i + 17 + padding == s.len(),
        s.subrange(i, s.len() as int) == magic + enc_u8(pv) + enc_padding(padding as nat),
    ensures
        dec_ocr1(s, i) == Ok::<_, DecodeError>((magic, pv, padding, s.len() as int)),
{
    let e = magic + enc_u8(pv) + enc_padding(padding as nat);
    assert(s.subrange(i, i + 16) =~= magic) by {
        lemma_slice_of_slice(s, i, e, 0, 16);
        assert(e.subrange(0, 16) =~= magic);
    }
    assert(s[i + 16] == pv) by {
        assert(s.subrange(i, i + e.len())[16] == s[i + 16]);
        assert(e[16] == pv);
    }
}

// ---------------------------------------------------------------------------
// OpenConnectionReply1 (0x06): magic, server guid, optional cookie, mtu
// ---------------------------------------------------------------------------

/// Server's reply to the first handshake packet, echoing the negotiated MTU.
pub struct OpenConnectionReply1 {
    pub magic: Vec<u8>,
    pub server_guid: u64,
    pub cookie: Option<u32>,
    pub mtu: u16,
}

impl OpenConnectionReply1 {
    pub open spec fn wf(self) -> bool {
        self.magic@.len() == 16
    }

    pub open spec fn spec_enc(self) -> Seq<u8> {
        self.magic@ + enc_u64_be(self.server_guid) + (match self.cookie {
            Some(c) => enc_bool(true) + enc_u32_be(c),
            None => enc_bool(false),
        }) + enc_u16_be(self.mtu)
    }
}

/// Spec decoder: magic, server guid, optional cookie, mtu, end position.
pub open spec fn dec_ocreply1(s: Seq<u8>, i: int) -> Result<
    (Seq<u8>, u64, Option<u32>, u16, int),
    DecodeError,
> {
    if i + 16 <= s.len() {
        let magic = s.subrange(i, i + 16);
        match dec_u64_be(s, i + 16) {
            Err(e) => Err(e),
            Ok((guid, j)) => match dec_bool(s, j) {
                Err(e) => Err(e),
                Ok((has_cookie, j2)) => {
                    let step: Result<(Option<u32>, int), DecodeError> = if has_cookie {
                        match dec_u32_be(s, j2) {
                            Err(e) => Err(e),
                            Ok((c, j3)) => Ok((Some(c), j3)),
                        }
                    } else {
                        Ok((None, j2))
                    };
                    match step {
                        Err(e) => Err(e),
                        Ok((cookie, j4)) => match dec_u16_be(s, j4) {
                            Err(e) => Err(e),
                            Ok((mtu, end)) => Ok((magic, guid, cookie, mtu, end)),
                        },
                    }
                },
            },
        }
    } else {
        Err(DecodeError::UnexpectedEof)
    }
}

impl OpenConnectionReply1 {
    pub fn encode_body(&self, out: &mut Vec<u8>)
        requires
            self@.wf(),
        ensures
            final(out)@ == old(out)@ + self.spec_enc(),
    {
        encode_magic(&self.magic, out);
        encode_u64_be(self.server_guid, out);
        match &self.cookie {
            Some(c) => {
                encode_bool(true, out);
                encode_u32_be(*c, out);
            },
            None => {
                encode_bool(false, out);
            },
        }
        encode_u16_be(self.mtu, out);
        assert(out@ =~= old(out)@ + self.spec_enc());
    }

    pub fn decode_body(buf: &Vec<u8>, pos: usize) -> (r: Result<
        (OpenConnectionReply1, usize),
        DecodeError,
    >)
        ensures
            match r {
                Ok((p, end)) => dec_ocreply1(buf@, pos as int) == Ok::<_, DecodeError>(
                    (p.magic@, p.server_guid, p.cookie, p.mtu, end as int),
                ) && p@.wf() && pos < end <= buf@.len(),
                Err(e) => dec_ocreply1(buf@, pos as int) == Err::<
                    (Seq<u8>, u64, Option<u32>, u16, int),
                    _,
                >(e),
            },
    {
        let (magic, i1) = match decode_magic(buf, pos) {
            Ok(x) => x,
            Err(e) => return Err(e),
        };
        let (server_guid, i2) = match decode_u64_be(buf, i1) {
            Ok(x) => x,
            Err(e) => return Err(e),
        };
        let (has_cookie, i3) = match decode_bool(buf, i2) {
            Ok(x) => x,
            Err(e) => return Err(e),
        };
        let mut cookie: Option<u32> = None;
        let mut p = i3;
        if has_cookie {
            match decode_u32_be(buf, p) {
                Ok((c, j)) => {
                    cookie = Some(c);
                    p = j;
                },
                Err(e) => return Err(e),
            }
        }
        let (mtu, end) = match decode_u16_be(buf, p) {
            Ok(x) => x,
            Err(e) => return Err(e),
        };
        Ok((OpenConnectionReply1 { magic, server_guid, cookie, mtu }, end))
    }
}

impl View for OpenConnectionReply1 {
    type V = OpenConnectionReply1;

    open spec fn view(&self) -> OpenConnectionReply1 {
        *self
    }
}

/// Encoding an `OpenConnectionReply1` and decoding the result yields the same
/// fields.
pub proof fn lemma_ocreply1_round_trip(
    s: Seq<u8>,
    i: int,
    magic: Seq<u8>,
    guid: u64,
    cookie: Option<u32>,
    mtu: u16,
)
    requires
        0 <= i,
        magic.len() == 16,
        i + 27 + (if cookie is Some {
            4int
        } else {
            0int
        }) <= s.len(),
        s.subrange(
            i,
            i + 27 + (if cookie is Some {
                4int
            } else {
                0int
            }),
        ) == magic + enc_u64_be(guid) + (match cookie {
            Some(c) => enc_bool(true) + enc_u32_be(c),
            None => enc_bool(false),
        }) + enc_u16_be(mtu),
    ensures
        dec_ocreply1(s, i) == Ok::<_, DecodeError>(
            (
                magic,
                guid,
                cookie,
                mtu,
                i + 27 + (if cookie is Some {
                    4int
                } else {
                    0int
                }),
            ),
        ),
{
    let lc: int = if cookie is Some {
        4
    } else {
        0
    };
    let e = magic + enc_u64_be(guid) + (match cookie {
        Some(c) => enc_bool(true) + enc_u32_be(c),
        None => enc_bool(false),
    }) + enc_u16_be(mtu);
    assert(e.len() == 27 + lc);
    assert(s.subrange(i, i + 16) =~= magic) by {
        lemma_slice_of_slice(s, i, e, 0, 16);
        assert(e.subrange(0, 16) =~= magic);
    }
    assert(s.subrange(i + 16, i + 24) =~= enc_u64_be(guid)) by {
        lemma_slice_of_slice(s, i, e, 16, 24);
        assert(e.subrange(16, 24) =~= enc_u64_be(guid));
    }
    lemma_u64_be_round_trip(s, i + 16, guid);
    assert(s[i + 24] == e[24]) by {
        assert(s.subrange(i, i + e.len())[24] == s[i + 24]);
    }
    match cookie {
        Some(c) => {
            assert(e[24] == 1u8);
            assert(s.subrange(i + 25, i + 29) =~= enc_u32_be(c)) by {
                lemma_slice_of_slice(s, i, e, 25, 29);
                assert(e.subrange(25, 29) =~= enc_u32_be(c));
            }
            lemma_u32_be_round_trip(s, i + 25, c);
            assert(s.subrange(i + 29, i + 31) =~= enc_u16_be(mtu)) by {
                lemma_slice_of_slice(s, i, e, 29, 31);
                assert(e.subrange(29, 31) =~= enc_u16_be(mtu));
            }
            lemma_u16_be_round_trip(s, i + 29, mtu);
        },
        None => {
            assert(e[24] == 0u8);
            assert(s.subrange(i + 25, i + 27) =~= enc_u16_be(mtu)) by {
                lemma_slice_of_slice(s, i, e, 25, 27);
                assert(e.subrange(25, 27) =~= enc_u16_be(mtu));
            }
            lemma_u16_be_round_trip(s, i + 25, mtu);
        },
    }
}

// ---------------------------------------------------------------------------
// Bodies that carry the magic and the server GUID and nothing else
// ---------------------------------------------------------------------------

/// Spec decoder shared by the magic+guid bodies.
pub open spec fn dec_magic_guid(s: Seq<u8>, i: int) -> Result<(Seq<u8>, u64, int), DecodeError> {
    if i + 16 <= s.len() {
        match dec_u64_be(s, i + 16) {
            Err(e) => Err(e),
            Ok((guid, end)) => Ok((s.subrange(i, i + 16), guid, end)),
        }
    } else {
        Err(DecodeError::UnexpectedEof)
    }
}

/// Decoding an encoded magic+guid body yields the same fields.
pub proof fn lemma_magic_guid_round_trip(s: Seq<u8>, i: int, magic: Seq<u8>, guid: u64)
    requires
        0 <= i,
        magic.len() == 16,
        i + 24 <= s.len(),
        s.subrange(i, i + 24) == magic + enc_u64_be(guid),
    ensures
        dec_magic_guid(s, i) == Ok::<_, DecodeError>((magic, guid, i + 24)),
{
    let e = magic + enc_u64_be(guid);
    assert(s.subrange(i, i + 16) =~= magic) by {
        lemma_slice_of_slice(s, i, e, 0, 16);
        assert(e.subrange(0, 16) =~= magic);
    }
    assert(s.subrange(i + 16, i + 24) =~= enc_u64_be(guid)) by {
        lemma_slice_of_slice(s, i, e, 16, 24);
        assert(e.subrange(16, 24) =~= enc_u64_be(guid));
    }
    lemma_u64_be_round_trip(s, i + 16, guid);
}

/// Sent to a peer whose address already has a live session.
pub struct AlreadyConnected {
    pub magic: Vec<u8>,
    pub server_guid: u64,
}

impl AlreadyConnected {
    pub open spec fn wf(self) -> bool {
        self.magic@.len() == 16
    }

    pub open spec fn spec_enc(self) -> Seq<u8> {
        self.magic@ + enc_u64_be(self.server_guid)
    }

    pub fn encode_body(&self, out: &mut Vec<u8>)
        requires
            self.wf(),
        ensures
            final(out)@ == old(out)@ + self.spec_enc(),
    {
        encode_magic(&self.magic, out);
        encode_u64_be(self.server_guid, out);
        assert(out@ =~= old(out)@ + self.spec_enc());
    }

    pub fn decode_body(buf: &Vec<u8>, pos: usize) -> (r: Result<
        (AlreadyConnected, usize),
        DecodeError,
    >)
        ensures
            match r {
                Ok((p, end)) => dec_magic_guid(buf@, pos as int) == Ok::<_, DecodeError>(
                    (p.magic@, p.server_guid, end as int),
                ) && p.wf() && pos < end <= buf@.len(),
                Err(e) => dec_magic_guid(buf@, pos as int) == Err::<(Seq<u8>, u64, int), _>(e),
            },
    {
        let (magic, i1) = match decode_magic(buf, pos) {
            Ok(x) => x,
            Err(e) => return Err(e),
        };
        let (server_guid, end) = match decode_u64_be(buf, i1) {
            Ok(x) => x,
            Err(e) => return Err(e),
        };
        Ok((AlreadyConnected { magic, server_guid }, end))
    }
}

/// Sent when the offline handshake has exhausted its attempts.
pub struct ConnectionRequestFailed {
    pub magic: Vec<u8>,
    pub server_guid: u64,
}

impl ConnectionRequestFailed {
    pub open spec fn wf(self) -> bool {
        self.magic@.len() == 16
    }

    pub open spec fn spec_enc(self) -> Seq<u8> {
        self.magic@ + enc_u64_be(self.server_guid)
    }

    pub fn encode_body(&self, out: &mut Vec<u8>)
        requires
            self.wf(),
        ensures
            final(out)@ == old(out)@ + self.spec_enc(),
    {
        encode_magic(&self.magic, out);
        encode_u64_be(self.server_guid, out);
        assert(out@ =~= old(out)@ + self.spec_enc());
    }

    pub fn decode_body(buf: &Vec<u8>, pos: usize) -> (r: Result<
        (ConnectionRequestFailed, usize),
        DecodeError,
    >)
        ensures
            match r {
                Ok((p, end)) => dec_magic_guid(buf@, pos as int) == Ok::<_, DecodeError>(
                    (p.magic@, p.server_guid, end as int),
                ) && p.wf() && pos < end <= buf@.len(),
                Err(e) => dec_magic_guid(buf@, pos as int) == Err::<(Seq<u8>, u64, int), _>(e),
            },
    {
        let (magic, i1) = match decode_magic(buf, pos) {
            Ok(x) => x,
            Err(e) => return Err(e),
        };
        let (server_guid, end) = match decode_u64_be(buf, i1) {
            Ok(x) => x,
            Err(e) => return Err(e),
        };
        Ok((ConnectionRequestFailed { magic, server_guid }, end))
    }
}

// ---------------------------------------------------------------------------
// IncompatibleProtocolVersion (0x19): protocol, magic, server guid
// ---------------------------------------------------------------------------

/// Sent when the client's protocol version is not the one spoken here.
pub struct IncompatibleProtocolVersion {
    pub protocol: u8,
    pub magic: Vec<u8>,
    pub server_guid: u64,
}

/// Spec decoder: protocol, magic, server guid, end position.
pub open spec fn dec_incompatible(s: Seq<u8>, i: int) -> Result<
    (u8, Seq<u8>, u64, int),
    DecodeError,
> {
    if i + 17 <= s.len() {
        match dec_u64_be(s, i + 17) {
            Err(e) => Err(e),
            Ok((guid, end)) => Ok((s[i], s.subrange(i + 1, i + 17), guid, end)),
        }
    } else {
        Err(DecodeError::UnexpectedEof)
    }
}

impl IncompatibleProtocolVersion {
    pub open spec fn wf(self) -> bool {
        self.magic@.len() == 16
    }

    pub open spec fn spec_enc(self) -> Seq<u8> {
        enc_u8(self.protocol) + self.magic@ + enc_u64_be(self.server_guid)
    }

    pub fn encode_body(&self, out: &mut Vec<u8>)
        requires
            self.wf(),
        ensures
            final(out)@ == old(out)@ + self.spec_enc(),
    {
        encode_u8(self.protocol, out);
        encode_magic(&self.magic, out);
        encode_u64_be(self.server_guid, out);
        assert(out@ =~= old(out)@ + self.spec_enc());
    }

    pub fn decode_body(buf: &Vec<u8>, pos: usize) -> (r: Result<
        (IncompatibleProtocolVersion, usize),
        DecodeError,
    >)
        ensures
            match r {
                Ok((p, end)) => dec_incompatible(buf@, pos as int) == Ok::<_, DecodeError>(
                    (p.protocol, p.magic@, p.server_guid, end as int),
                ) && p.wf() && pos < end <= buf@.len(),
                Err(e) => dec_incompatible(buf@, pos as int) == Err::<(u8, Seq<u8>, u64, int), _>(
                    e,
                ),
            },
    {
        let (protocol, i1) = match decode_u8(buf, pos) {
            Ok(x) => x,
            Err(e) => return Err(e),
        };
        let (magic, i2) = match decode_magic(buf, i1) {
            Ok(x) => x,
            Err(e) => return Err(e),
        };
        let (server_guid, end) = match decode_u64_be(buf, i2) {
            Ok(x) => x,
            Err(e) => return Err(e),
        };
        Ok((IncompatibleProtocolVersion { protocol, magic, server_guid }, end))
    }
}

/// Decoding an encoded `IncompatibleProtocolVersion` yields the same fields.
pub proof fn lemma_incompatible_round_trip(s: Seq<u8>, i: int, pv: u8, magic: Seq<u8>, guid: u64)
    requires
        0 <= i,
        magic.len() == 16,
        i + 25 <= s.len(),
        s.subrange(i, i + 25) == enc_u8(pv) + magic + enc_u64_be(guid),
    ensures
        dec_incompatible(s, i) == Ok::<_, DecodeError>((pv, magic, guid, i + 25)),
{
    let e = enc_u8(pv) + magic + enc_u64_be(guid);
    assert(s[i] == pv) by {
        assert(s.subrange(i, i + 25)[0] == s[i]);
        assert(e[0] == pv);
    }
    assert(s.subrange(i + 1, i + 17) =~= magic) by {
        lemma_slice_of_slice(s, i, e, 1, 17);
        assert(e.subrange(1, 17) =~= magic);
    }
    assert(s.subrange(i + 17, i + 25) =~= enc_u64_be(guid)) by {
        lemma_slice_of_slice(s, i, e, 17, 25);
        assert(e.subrange(17, 25) =~= enc_u64_be(guid));
    }
    lemma_u64_be_round_trip(s, i + 17, guid);
}

// ---------------------------------------------------------------------------
// ConnectionRequest (0x09): client guid, timestamp, security flag
// ---------------------------------------------------------------------------

/// First reliable packet of the online handshake.
pub struct ConnectionRequest {
    pub server_guid: u64,
    pub timestamp: u64,
    pub secure: bool,
}

/// Spec decoder: guid, timestamp, security flag, end position.
pub open spec fn dec_connection_request(s: Seq<u8>, i: int) -> Result<
    (u64, u64, bool, int),
    DecodeError,
> {
    match dec_u64_be(s, i) {
        Err(e) => Err(e),
        Ok((guid, j)) => match dec_u64_be(s, j) {
            Err(e) => Err(e),
            Ok((ts, j2)) => match dec_bool(s, j2) {
                Err(e) => Err(e),
                Ok((secure, end)) => Ok((guid, ts, secure, end)),
            },
        },
    }
}

impl ConnectionRequest {
    pub open spec fn spec_enc(self) -> Seq<u8> {
        enc_u64_be(self.server_guid) + enc_u64_be(self.timestamp) + enc_bool(self.secure)
    }

    pub fn encode_body(&self, out: &mut Vec<u8>)
        ensures
            final(out)@ == old(out)@ + self.spec_enc(),
    {
        encode_u64_be(self.server_guid, out);
        encode_u64_be(self.timestamp, out);
        encode_bool(self.secure, out);
        assert(out@ =~= old(out)@ + self.spec_enc());
    }

    pub fn decode_body(buf: &Vec<u8>, pos: usize) -> (r: Result<
        (ConnectionRequest, usize),
        DecodeError,
    >)
        ensures
            match r {
                Ok((p, end)) => dec_connection_request(buf@, pos as int) == Ok::<_, DecodeError>(
                    (p.server_guid, p.timestamp, p.secure, end as int),
                ) && pos < end <= buf@.len(),
                Err(e) => dec_connection_request(buf@, pos as int) == Err::<
                    (u64, u64, bool, int),
                    _,
                >(e),
            },
    {
        let (server_guid, i1) = match decode_u64_be(buf, pos) {
            Ok(x) => x,
            Err(e) => return Err(e),
        };
        let (timestamp, i2) = match decode_u64_be(buf, i1) {
            Ok(x) => x,
            Err(e) => return Err(e),
        };
        let (secure, end) = match decode_bool(buf, i2) {
            Ok(x) => x,
            Err(e) => return Err(e),
        };
        Ok((ConnectionRequest { server_guid, timestamp, secure }, end))
    }
}

/// Decoding an encoded `ConnectionRequest` yields the same fields.
pub proof fn lemma_connection_request_round_trip(s: Seq<u8>, i: int, g: u64, t: u64, sec: bool)
    requires
        0 <= i,
        i + 17 <= s.len(),
        s.subrange(i, i + 17) == enc_u64_be(g) + enc_u64_be(t) + enc_bool(sec),
    ensures
        dec_connection_request(s, i) == Ok::<_, DecodeError>((g, t, sec, i + 17)),
{
    let e = enc_u64_be(g) + enc_u64_be(t) + enc_bool(sec);
    assert(s.subrange(i, i + 8) =~= enc_u64_be(g)) by {
        lemma_slice_of_slice(s, i, e, 0, 8);
        assert(e.subrange(0, 8) =~= enc_u64_be(g));
    }
    lemma_u64_be_round_trip(s, i, g);
    assert(s.subrange(i + 8, i + 16) =~= enc_u64_be(t)) by {
        lemma_slice_of_slice(s, i, e, 8, 16);
        assert(e.subrange(8, 16) =~= enc_u64_be(t));
    }
    lemma_u64_be_round_trip(s, i + 8, t);
    assert(s[i + 16] == e[16]) by {
        assert(s.subrange(i, i + 17)[16] == s[i + 16]);
    }
    assert(e[16] == (if sec { 1u8 } else { 0u8 }));
}

// ---------------------------------------------------------------------------
// ConnectedPing (0x00) and ConnectedPong (0x03)
// ---------------------------------------------------------------------------

/// Keep-alive probe carrying the sender's clock.
pub struct ConnectedPing {
    pub ping_time: u64,
}

impl ConnectedPing {
    pub open spec fn spec_enc(self) -> Seq<u8> {
        enc_u64_be(self.ping_time)
    }

    pub fn encode_body(&self, out: &mut Vec<u8>)
        ensures
            final(out)@ == old(out)@ + self.spec_enc(),
    {
        encode_u64_be(self.ping_time, out);
    }

    pub fn decode_body(buf: &Vec<u8>, pos: usize) -> (r: Result<
        (ConnectedPing, usize),
        DecodeError,
    >)
        ensures
            match r {
                Ok((p, end)) => dec_u64_be(buf@, pos as int) == Ok::<_, DecodeError>(
                    (p.ping_time, end as int),
                ) && pos < end <= buf@.len(),
                Err(e) => dec_u64_be(buf@, pos as int) == Err::<(u64, int), _>(e),
            },
    {
        match decode_u64_be(buf, pos) {
            Ok((ping_time, end)) => Ok((ConnectedPing { ping_time }, end)),
            Err(e) => Err(e),
        }
    }
}

/// Reply to a `ConnectedPing`, echoing its clock beside the replier's.
pub struct ConnectedPong {
    pub ping_time: u64,
    pub pong_time: u64,
}

/// Spec decoder: ping time, pong time, end position.
pub open spec fn dec_connected_pong(s: Seq<u8>, i: int) -> Result<(u64, u64, int), DecodeError> {
    match dec_u64_be(s, i) {
        Err(e) => Err(e),
        Ok((ping, j)) => match dec_u64_be(s, j) {
            Err(e) => Err(e),
            Ok((pong, end)) => Ok((ping, pong, end)),
        },
    }
}

impl ConnectedPong {
    pub open spec fn spec_enc(self) -> Seq<u8> {
        enc_u64_be(self.ping_time) + enc_u64_be(self.pong_time)
    }

    pub fn encode_body(&self, out: &mut Vec<u8>)
        ensures
            final(out)@ == old(out)@ + self.spec_enc(),
    {
        encode_u64_be(self.ping_time, out);
        encode_u64_be(self.pong_time, out);
        assert(out@ =~= old(out)@ + self.spec_enc());
    }

    pub fn decode_body(buf: &Vec<u8>, pos: usize) -> (r: Result<
        (ConnectedPong, usize),
        DecodeError,
    >)
        ensures
            match r {
                Ok((p, end)) => dec_connected_pong(buf@, pos as int) == Ok::<_, DecodeError>(
                    (p.ping_time, p.pong_time, end as int),
                ) && pos < end <= buf@.len(),
                Err(e) => dec_connected_pong(buf@, pos as int) == Err::<(u64, u64, int), _>(e),
            },
    {
        let (ping_time, i1) = match decode_u64_be(buf, pos) {
            Ok(x) => x,
            Err(e) => return Err(e),
        };
        let (pong_time, end) = match decode_u64_be(buf, i1) {
            Ok(x) => x,
            Err(e) => return Err(e),
        };
        Ok((ConnectedPong { ping_time, pong_time }, end))
    }
}

/// Decoding an encoded `ConnectedPong` yields the same fields.
pub proof fn lemma_connected_pong_round_trip(s: Seq<u8>, i: int, ping: u64, pong: u64)
    requires
        0 <= i,
        i + 16 <= s.len(),
        s.subrange(i, i + 16) == enc_u64_be(ping) + enc_u64_be(pong),
    ensures
        dec_connected_pong(s, i) == Ok::<_, DecodeError>((ping, pong, i + 16)),
{
    let e = enc_u64_be(ping) + enc_u64_be(pong);
    assert(s.subrange(i, i + 8) =~= enc_u64_be(ping)) by {
        lemma_slice_of_slice(s, i, e, 0, 8);
        assert(e.subrange(0, 8) =~= enc_u64_be(ping));
    }
    lemma_u64_be_round_trip(s, i, ping);
    assert(s.subrange(i + 8, i + 16) =~= enc_u64_be(pong)) by {
        lemma_slice_of_slice(s, i, e, 8, 16);
        assert(e.subrange(8, 16) =~= enc_u64_be(pong));
    }
    lemma_u64_be_round_trip(s, i + 8, pong);
}

// ---------------------------------------------------------------------------
// UnconnectedPing (0x01): ping time, magic
// ---------------------------------------------------------------------------

/// Discovery probe sent to unconnected servers.
pub struct UnconnectedPing {
    pub ping_time: u64,
    pub magic: Vec<u8>,
}

/// Spec decoder: ping time, magic, end position.
pub open spec fn dec_unconnected_ping(s: Seq<u8>, i: int) -> Result<
    (u64, Seq<u8>, int),
    DecodeError,
> {
    match dec_u64_be(s, i) {
        Err(e) => Err(e),
        Ok((t, j)) => if j + 16 <= s.len() {
            Ok((t, s.subrange(j, j + 16), j + 16))
        } else {
            Err(DecodeError::UnexpectedEof)
        },
    }
}

impl UnconnectedPing {
    pub open spec fn wf(self) -> bool {
        self.magic@.len() == 16
    }

    pub open spec fn spec_enc(self) -> Seq<u8> {
        enc_u64_be(self.ping_time) + self.magic@
    }

    pub fn encode_body(&self, out: &mut Vec<u8>)
        requires
            self.wf(),
        ensures
            final(out)@ == old(out)@ + self.spec_enc(),
    {
        encode_u64_be(self.ping_time, out);
        encode_magic(&self.magic, out);
        assert(out@ =~= old(out)@ + self.spec_enc());
    }

    pub fn decode_body(buf: &Vec<u8>, pos: usize) -> (r: Result<
        (UnconnectedPing, usize),
        DecodeError,
    >)
        ensures
            match r {
                Ok((p, end)) => dec_unconnected_ping(buf@, pos as int) == Ok::<_, DecodeError>(
                    (p.ping_time, p.magic@, end as int),
                ) && p.wf() && pos < end <= buf@.len(),
                Err(e) => dec_unconnected_ping(buf@, pos as int) == Err::<
                    (u64, Seq<u8>, int),
                    _,
                >(e),
            },
    {
        let (ping_time, i1) = match decode_u64_be(buf, pos) {
            Ok(x) => x,
            Err(e) => return Err(e),
        };
        let (magic, end) = match decode_magic(buf, i1) {
            Ok(x) => x,
            Err(e) => return Err(e),
        };
        Ok((UnconnectedPing { ping_time, magic }, end))
    }
}

/// Decoding an encoded `UnconnectedPing` yields the same fields.
pub proof fn lemma_unconnected_ping_round_trip(s: Seq<u8>, i: int, t: u64, magic: Seq<u8>)
    requires
        0 <= i,
        magic.len() == 16,
        i + 24 <= s.len(),
        s.subrange(i, i + 24) == enc_u64_be(t) + magic,
    ensures
        dec_unconnected_ping(s, i) == Ok::<_, DecodeError>((t, magic, i + 24)),
{
    let e = enc_u64_be(t) + magic;
    assert(s.subrange(i, i + 8) =~= enc_u64_be(t)) by {
        lemma_slice_of_slice(s, i, e, 0, 8);
        assert(e.subrange(0, 8) =~= enc_u64_be(t));
    }
    lemma_u64_be_round_trip(s, i, t);
    assert(s.subrange(i + 8, i + 24) =~= magic) by {
        lemma_slice_of_slice(s, i, e, 8, 24);
        assert(e.subrange(8, 24) =~= magic);
    }
}

// ---------------------------------------------------------------------------
// Address lists (the ten system addresses)
// ---------------------------------------------------------------------------

pub open spec fn enc_addrs(aa: Seq<RakAddr>) -> Seq<u8>
    decreases aa.len(),
{
    if aa.len() == 0 {
        Seq::empty()
    } else {
        enc_addr(aa[0]) + enc_addrs(aa.drop_first())
    }
}

/// Spec decoder for `n` consecutive addresses.
pub open spec fn dec_addrs(s: Seq<u8>, i: int, n: nat) -> Result<
    (Seq<RakAddr>, int),
    DecodeError,
>
    decreases n,
{
    if n == 0 {
        Ok((Seq::empty(), i))
    } else {
        match dec_addr(s, i) {
            Err(e) => Err(e),
            Ok((a, j)) => match dec_addrs(s, j, (n - 1) as nat) {
                Err(e) => Err(e),
                Ok((rest, end)) => Ok((seq![a] + rest, end)),
            },
        }
    }
}

/// Decoding an encoded address list yields the same addresses.
pub proof fn lemma_addrs_round_trip(s: Seq<u8>, i: int, aa: Seq<RakAddr>)
    requires
        0 <= i,
        i + enc_addrs(aa).len() <= s.len(),
        s.subrange(i, i + enc_addrs(aa).len()) == enc_addrs(aa),
    ensures
        dec_addrs(s, i, aa.len()) == Ok::<_, DecodeError>((aa, i + enc_addrs(aa).len())),
    decreases aa.len(),
{
    if aa.len() == 0 {
        assert(aa =~= Seq::<RakAddr>::empty());
    } else {
        let e = enc_addrs(aa);
        let a0 = aa[0];
        let la = addr_enc_len(a0);
        let tail = aa.drop_first();
        assert(e == enc_addr(a0) + enc_addrs(tail));
        assert(enc_addr(a0).len() == la);
        assert(s.subrange(i, i + la) =~= enc_addr(a0)) by {
            lemma_slice_of_slice(s, i, e, 0, la);
            assert(e.subrange(0, la) =~= enc_addr(a0));
        }
        lemma_addr_round_trip(s, i, a0);
        assert(s.subrange(i + la, i + la + enc_addrs(tail).len() as int) =~= enc_addrs(tail)) by {
            lemma_slice_of_slice(s, i, e, la, e.len() as int);
            assert(e.subrange(la, e.len() as int) =~= enc_addrs(tail));
        }
        lemma_addrs_round_trip(s, i + la, tail);
        assert(aa =~= seq![a0] + tail);
    }
}

/// Reads `n` consecutive addresses.
pub fn decode_addrs(buf: &Vec<u8>, pos: usize, n: usize) -> (r: Result<
    (Vec<RakAddr>, usize),
    DecodeError,
>)
    requires
        pos <= buf@.len(),
    ensures
        match r {
            Ok((v, end)) => dec_addrs(buf@, pos as int, n as nat) == Ok::<_, DecodeError>(
                (v@, end as int),
            ) && v@.len() == n && pos <= end <= buf@.len(),
            Err(e) => dec_addrs(buf@, pos as int, n as nat) == Err::<(Seq<RakAddr>, int), _>(e),
        },
{
    let mut v: Vec<RakAddr> = Vec::new();
    let mut p = pos;
    let mut k: usize = 0;
    while k < n
        invariant
            k <= n,
            v@.len() == k,
            pos <= p <= buf@.len(),
            ({
                let whole = dec_addrs(buf@, pos as int, n as nat);
                let rest = dec_addrs(buf@, p as int, (n - k) as nat);
                match rest {
                    Ok((aa, end)) => whole == Ok::<_, DecodeError>((v@ + aa, end)),
                    Err(e) => whole == Err::<(Seq<RakAddr>, int), _>(e),
                }
            }),
        decreases n - k,
    {
        match decode_addr(buf, p) {
            Ok((a, j)) => {
                proof {
                    let rest = dec_addrs(buf@, p as int, (n - k) as nat);
                    let rest2 = dec_addrs(buf@, j as int, (n - k - 1) as nat);
                    match rest2 {
                        Ok((aa2, end)) => {
                            assert(rest == Ok::<_, DecodeError>((seq![a] + aa2, end)));
                            assert((v@ + seq![a]) + aa2 =~= v@ + (seq![a] + aa2));
                            assert(v@.push(a) =~= v@ + seq![a]);
                        },
                        Err(e) => {
                            assert(rest == Err::<(Seq<RakAddr>, int), _>(e));
                        },
                    }
                }
                v.push(a);
                p = j;
                k = k + 1;
            },
            Err(e) => {
                proof {
                    assert(dec_addrs(buf@, p as int, (n - k) as nat) == Err::<
                        (Seq<RakAddr>, int),
                        _,
                    >(e));
                }
                return Err(e);
            },
        }
    }
    proof {
        assert(v@ + Seq::<RakAddr>::empty() =~= v@);
    }
    Ok((v, p))
}

/// Appends every address of the list.
pub fn encode_addrs(aa: &Vec<RakAddr>, out: &mut Vec<u8>)
    ensures
        final(out)@ == old(out)@ + enc_addrs(aa@),
{
    let mut k: usize = 0;
    while k < aa.len()
        invariant
            k <= aa@.len(),
            out@ == old(out)@ + enc_addrs(aa@.take(k as int)),
        decreases aa@.len() - k,
    {
        encode_addr(&aa[k], out);
        proof {
            lemma_enc_addrs_snoc(aa@.take(k as int), aa@[k as int]);
            assert(aa@.take(k as int).push(aa@[k as int]) =~= aa@.take(k as int + 1));
        }
        k = k + 1;
    }
    assert(aa@.take(aa@.len() as int) =~= aa@);
}

/// Appending one address to a list appends its encoding.
proof fn lemma_enc_addrs_snoc(aa: Seq<RakAddr>, a: RakAddr)
    ensures
        enc_addrs(aa.push(a)) == enc_addrs(aa) + enc_addr(a),
    decreases aa.len(),
{
    if aa.len() == 0 {
        assert(aa.push(a).drop_first() =~= Seq::<RakAddr>::empty());
        assert(aa.push(a)[0] == a);
        assert(enc_addrs(Seq::<RakAddr>::empty()) =~= Seq::<u8>::empty());
        assert(enc_addrs(aa.push(a)) =~= enc_addr(a) + enc_addrs(Seq::<RakAddr>::empty()));
        assert(enc_addrs(aa.push(a)) =~= enc_addr(a));
        assert(enc_addrs(aa) + enc_addr(a) =~= enc_addr(a));
    } else {
        assert(aa.push(a).drop_first() =~= aa.drop_first().push(a));
        lemma_enc_addrs_snoc(aa.drop_first(), a);
        assert(aa.push(a)[0] == aa[0]);
        assert(enc_addrs(aa.push(a)) == enc_addr(aa[0]) + enc_addrs(aa.drop_first().push(a)));
        assert(enc_addr(aa[0]) + (enc_addrs(aa.drop_first()) + enc_addr(a)) =~= (enc_addr(aa[0])
            + enc_addrs(aa.drop_first())) + enc_addr(a));
    }
}

// ---------------------------------------------------------------------------
// OpenConnectionRequest2 (0x07): magic, optional cookie+proof, server
// address, mtu, client guid. Two layouts share the ID; the cookie-bearing
// one is preferred when its byte lengths line up with the buffer, else the
// decoder falls back to the plain layout.
// ---------------------------------------------------------------------------

/// Second offline handshake packet, echoing the negotiated MTU.
pub struct OpenConnectionRequest2 {
    pub magic: Vec<u8>,
    pub cookie: Option<u32>,
    pub client_proof: bool,
    pub server_addr: RakAddr,
    pub mtu: u16,
    pub client_guid: u64,
}

impl OpenConnectionRequest2 {
    pub open spec fn wf(self) -> bool {
        &&& self.magic@.len() == 16
        &&& (self.cookie is None ==> !self.client_proof)
    }

    pub open spec fn spec_enc(self) -> Seq<u8> {
        self.magic@ + (match self.cookie {
            Some(c) => enc_u32_be(c) + enc_bool(self.client_proof),
            None => Seq::empty(),
        }) + enc_addr(self.server_addr) + enc_u16_be(self.mtu) + enc_u64_be(self.client_guid)
    }
}

/// The cookie-bearing layout read after the magic: cookie, proof, address,
/// mtu, guid — accepted only when it consumes the buffer exactly.
pub open spec fn dec_ocr2_cookie_attempt(s: Seq<u8>, i: int) -> Option<
    (u32, bool, RakAddr, u16, u64),
> {
    match dec_u32_be(s, i) {
        Err(_) => None,
        Ok((c, j)) => match dec_bool(s, j) {
            Err(_) => None,
            Ok((proof_flag, j2)) => match dec_addr(s, j2) {
                Err(_) => None,
                Ok((a, j3)) => match dec_u16_be(s, j3) {
                    Err(_) => None,
                    Ok((mtu, j4)) => match dec_u64_be(s, j4) {
                        Err(_) => None,
                        Ok((guid, end)) => if end == s.len() {
                            Some((c, proof_flag, a, mtu, guid))
                        } else {
                            None
                        },
                    },
                },
            },
        },
    }
}

/// Spec decoder: magic, optional cookie, proof flag, address, mtu, guid.
/// The body runs to the end of the buffer.
pub open spec fn dec_ocr2(s: Seq<u8>, i: int) -> Result<
    (Seq<u8>, Option<u32>, bool, RakAddr, u16, u64),
    DecodeError,
> {
    if i + 16 <= s.len() {
        let magic = s.subrange(i, i + 16);
        match dec_ocr2_cookie_attempt(s, i + 16) {
            Some((c, proof_flag, a, mtu, guid)) => Ok(
                (magic, Some(c), proof_flag, a, mtu, guid),
            ),
            None => match dec_addr(s, i + 16) {
                Err(e) => Err(e),
                Ok((a, j)) => match dec_u16_be(s, j) {
                    Err(e) => Err(e),
                    Ok((mtu, j2)) => match dec_u64_be(s, j2) {
                        Err(e) => Err(e),
                        Ok((guid, _)) => Ok((magic, None, false, a, mtu, guid)),
                    },
                },
            },
        }
    } else {
        Err(DecodeError::UnexpectedEof)
    }
}

impl OpenConnectionRequest2 {
    pub fn encode_body(&self, out: &mut Vec<u8>)
        requires
            self.wf(),
        ensures
            final(out)@ == old(out)@ + self.spec_enc(),
    {
        encode_magic(&self.magic, out);
        match &self.cookie {
            Some(c) => {
                encode_u32_be(*c, out);
                encode_bool(self.client_proof, out);
            },
            None => {},
        }
        encode_addr(&self.server_addr, out);
        encode_u16_be(self.mtu, out);
        encode_u64_be(self.client_guid, out);
        assert(out@ =~= old(out)@ + self.spec_enc());
    }

    pub fn decode_body(buf: &Vec<u8>, pos: usize) -> (r: Result<
        (OpenConnectionRequest2, usize),
        DecodeError,
    >)
        ensures
            match r {
                Ok((p, end)) => dec_ocr2(buf@, pos as int) == Ok::<_, DecodeError>(
                    (p.magic@, p.cookie, p.client_proof, p.server_addr, p.mtu, p.client_guid),
                ) && p.magic@.len() == 16 && pos < end && end == buf@.len() && (p.cookie is None
                    ==> !p.client_proof),
                Err(e) => dec_ocr2(buf@, pos as int) == Err::<
                    (Seq<u8>, Option<u32>, bool, RakAddr, u16, u64),
                    _,
                >(e),
            },
    {
        let (magic, i1) = match decode_magic(buf, pos) {
            Ok(x) => x,
            Err(e) => return Err(e),
        };
        // cookie-bearing attempt, accepted only when it ends the buffer
        let attempt: Option<(u32, bool, RakAddr, u16, u64)> = match decode_u32_be(buf, i1) {
            Err(_) => None,
            Ok((c, j)) => match decode_bool(buf, j) {
                Err(_) => None,
                Ok((proof_flag, j2)) => match decode_addr(buf, j2) {
                    Err(_) => None,
                    Ok((a, j3)) => match decode_u16_be(buf, j3) {
                        Err(_) => None,
                        Ok((mtu, j4)) => match decode_u64_be(buf, j4) {
                            Err(_) => None,
                            Ok((guid, end)) => if end == buf.len() {
                                Some((c, proof_flag, a, mtu, guid))
                            } else {
                                None
                            },
                        },
                    },
                },
            },
        };
        match attempt {
            Some((c, proof_flag, a, mtu, guid)) => Ok(
                (
                    OpenConnectionRequest2 {
                        magic,
                        cookie: Some(c),
                        client_proof: proof_flag,
                        server_addr: a,
                        mtu,
                        client_guid: guid,
                    },
                    buf.len(),
                ),
            ),
            None => {
                let (a, j) = match decode_addr(buf, i1) {
                    Ok(x) => x,
                    Err(e) => return Err(e),
                };
                let (mtu, j2) = match decode_u16_be(buf, j) {
                    Ok(x) => x,
                    Err(e) => return Err(e),
                };
                let (guid, _j3) = match decode_u64_be(buf, j2) {
                    Ok(x) => x,
                    Err(e) => return Err(e),
                };
                Ok(
                    (
                        OpenConnectionRequest2 {
                            magic,
                            cookie: None,
                            client_proof: false,
                            server_addr: a,
                            mtu,
                            client_guid: guid,
                        },
                        buf.len(),
                    ),
                )
            },
        }
    }
}

/// Both layouts of `OpenConnectionRequest2` decode back to the fields that
/// were encoded, when the encoding is the whole remaining buffer: the two
/// layouts consume different byte counts, so the cookie attempt fires exactly
/// on cookie-bearing bodies.
pub proof fn lemma_ocr2_round_trip(s: Seq<u8>, i: int, p: OpenConnectionRequest2)
    requires
        0 <= i,
        p.wf(),
        i + p.spec_enc().len() == s.len(),
        s.subrange(i, s.len() as int) == p.spec_enc(),
    ensures
        dec_ocr2(s, i) == Ok::<_, DecodeError>(
            (p.magic@, p.cookie, p.client_proof, p.server_addr, p.mtu, p.client_guid),
        ),
{
    match p.cookie {
        Some(_) => lemma_ocr2_round_trip_cookie(s, i, p),
        None => lemma_ocr2_round_trip_plain(s, i, p),
    }
}

#[verifier::rlimit(100)]
proof fn lemma_ocr2_round_trip_cookie(s: Seq<u8>, i: int, p: OpenConnectionRequest2)
    requires
        0 <= i,
        p.wf(),
        p.cookie is Some,
        i + p.spec_enc().len() == s.len(),
        s.subrange(i, s.len() as int) == p.spec_enc(),
    ensures
        dec_ocr2(s, i) == Ok::<_, DecodeError>(
            (p.magic@, p.cookie, p.client_proof, p.server_addr, p.mtu, p.client_guid),
        ),
{
    reveal(crate::codec::dec_addr);
    let e = p.spec_enc();
    let la = addr_enc_len(p.server_addr);
    let lc: int = 5;
    assert(e.len() == 16 + lc + la + 10);
    assert(s.subrange(i, i + 16) =~= p.magic@) by {
        lemma_slice_of_slice(s, i, e, 0, 16);
        assert(e.subrange(0, 16) =~= p.magic@);
    }
    match p.cookie {
        Some(c) => {
            assert(s.subrange(i + 16, i + 20) =~= enc_u32_be(c)) by {
                lemma_slice_of_slice(s, i, e, 16, 20);
                assert(e.subrange(16, 20) =~= enc_u32_be(c));
            }
            lemma_u32_be_round_trip(s, i + 16, c);
            assert(s[i + 20] == (if p.client_proof {
                1u8
            } else {
                0u8
            })) by {
                assert(s.subrange(i, i + e.len())[20] == s[i + 20]);
                assert(e[20] == (if p.client_proof {
                    1u8
                } else {
                    0u8
                }));
            }
            assert(s.subrange(i + 21, i + 21 + la) =~= enc_addr(p.server_addr)) by {
                lemma_slice_of_slice(s, i, e, 21, 21 + la);
                assert(e.subrange(21, 21 + la) =~= enc_addr(p.server_addr));
            }
            lemma_addr_round_trip(s, i + 21, p.server_addr);
            assert(s.subrange(i + 21 + la, i + 23 + la) =~= enc_u16_be(p.mtu)) by {
                lemma_slice_of_slice(s, i, e, 21 + la, 23 + la);
                assert(e.subrange(21 + la, 23 + la) =~= enc_u16_be(p.mtu));
            }
            lemma_u16_be_round_trip(s, i + 21 + la, p.mtu);
            assert(s.subrange(i + 23 + la, i + 31 + la) =~= enc_u64_be(p.client_guid)) by {
                lemma_slice_of_slice(s, i, e, 23 + la, 31 + la);
                assert(e.subrange(23 + la, 31 + la) =~= enc_u64_be(p.client_guid));
            }
            lemma_u64_be_round_trip(s, i + 23 + la, p.client_guid);
            assert(dec_ocr2_cookie_attempt(s, i + 16) == Some(
                (c, p.client_proof, p.server_addr, p.mtu, p.client_guid),
            ));
        },
        None => {
            assert(false);
        },
    }
}

#[verifier::rlimit(100)]
#[verifier::spinoff_prover]
proof fn lemma_ocr2_round_trip_plain(s: Seq<u8>, i: int, p: OpenConnectionRequest2)
    requires
        0 <= i,
        p.wf(),
        p.cookie is None,
        i + p.spec_enc().len() == s.len(),
        s.subrange(i, s.len() as int) == p.spec_enc(),
    ensures
        dec_ocr2(s, i) == Ok::<_, DecodeError>(
            (p.magic@, p.cookie, p.client_proof, p.server_addr, p.mtu, p.client_guid),
        ),
{
    reveal(crate::codec::dec_addr);
    let e = p.spec_enc();
    let la = addr_enc_len(p.server_addr);
    assert(e.len() == 16 + la + 10);
    assert(s.subrange(i, i + 16) =~= p.magic@) by {
        lemma_slice_of_slice(s, i, e, 0, 16);
        assert(e.subrange(0, 16) =~= p.magic@);
    }
    match p.cookie {
        Some(_) => {
            assert(false);
        },
        None => {
            assert(s.subrange(i + 16, i + 16 + la) =~= enc_addr(p.server_addr)) by {
                lemma_slice_of_slice(s, i, e, 16, 16 + la);
                assert(e.subrange(16, 16 + la) =~= enc_addr(p.server_addr));
            }
            lemma_addr_round_trip(s, i + 16, p.server_addr);
            assert(s.subrange(i + 16 + la, i + 18 + la) =~= enc_u16_be(p.mtu)) by {
                lemma_slice_of_slice(s, i, e, 16 + la, 18 + la);
                assert(e.subrange(16 + la, 18 + la) =~= enc_u16_be(p.mtu));
            }
            lemma_u16_be_round_trip(s, i + 16 + la, p.mtu);
            assert(s.subrange(i + 18 + la, i + 26 + la) =~= enc_u64_be(p.client_guid)) by {
                lemma_slice_of_slice(s, i, e, 18 + la, 26 + la);
                assert(e.subrange(18 + la, 26 + la) =~= enc_u64_be(p.client_guid));
            }
            lemma_u64_be_round_trip(s, i + 18 + la, p.client_guid);
            // the cookie attempt cannot consume the plain layout exactly:
            // it would need 15 bytes besides the address against the 10 here
            assert(dec_ocr2_cookie_attempt(s, i + 16) is None) by {
                match dec_u32_be(s, i + 16) {
                    Err(_) => {},
                    Ok((_, j)) => match dec_bool(s, j) {
                        Err(_) => {},
                        Ok((_, j2)) => match dec_addr(s, j2) {
                            Err(_) => {},
                            Ok((a2, j3)) => {
                                assert(j3 == j2 + addr_enc_len(a2));
                                match dec_u16_be(s, j3) {
                                    Err(_) => {},
                                    Ok((_, j4)) => match dec_u64_be(s, j4) {
                                        Err(_) => {},
                                        Ok((_, end2)) => {
                                            assert(end2 == i + 31 + addr_enc_len(a2));
                                            assert(s.len() == i + 26 + la);
                                            assert(addr_enc_len(a2) == 7 || addr_enc_len(a2)
                                                == 29);
                                            assert(la == 7 || la == 29);
                                            assert(end2 != s.len());
                                        },
                                    },
                                }
                            },
                        },
                    },
                }
            }
        },
    }
}

// ---------------------------------------------------------------------------
// OpenConnectionReply2 (0x08): magic, guid, client address, mtu, security
// ---------------------------------------------------------------------------

/// Server's final offline handshake packet.
pub struct OpenConnectionReply2 {
    pub magic: Vec<u8>,
    pub server_guid: u64,
    pub server_addr: RakAddr,
    pub mtu: u16,
    pub security: bool,
}

/// Spec decoder: magic, guid, address, mtu, security flag, end position.
pub open spec fn dec_ocreply2(s: Seq<u8>, i: int) -> Result<
    (Seq<u8>, u64, RakAddr, u16, bool, int),
    DecodeError,
> {
    if i + 16 <= s.len() {
        match dec_u64_be(s, i + 16) {
            Err(e) => Err(e),
            Ok((guid, j)) => match dec_addr(s, j) {
                Err(e) => Err(e),
                Ok((a, j2)) => match dec_u16_be(s, j2) {
                    Err(e) => Err(e),
                    Ok((mtu, j3)) => match dec_bool(s, j3) {
                        Err(e) => Err(e),
                        Ok((sec, end)) => Ok((s.subrange(i, i + 16), guid, a, mtu, sec, end)),
                    },
                },
            },
        }
    } else {
        Err(DecodeError::UnexpectedEof)
    }
}

impl OpenConnectionReply2 {
    pub open spec fn wf(self) -> bool {
        self.magic@.len() == 16
    }

    pub open spec fn spec_enc(self) -> Seq<u8> {
        self.magic@ + enc_u64_be(self.server_guid) + enc_addr(self.server_addr) + enc_u16_be(
            self.mtu,
        ) + enc_bool(self.security)
    }

    pub fn encode_body(&self, out: &mut Vec<u8>)
        requires
            self.wf(),
        ensures
            final(out)@ == old(out)@ + self.spec_enc(),
    {
        encode_magic(&self.magic, out);
        encode_u64_be(self.server_guid, out);
        encode_addr(&self.server_addr, out);
        encode_u16_be(self.mtu, out);
        encode_bool(self.security, out);
        assert(out@ =~= old(out)@ + self.spec_enc());
    }

    pub fn decode_body(buf: &Vec<u8>, pos: usize) -> (r: Result<
        (OpenConnectionReply2, usize),
        DecodeError,
    >)
        ensures
            match r {
                Ok((p, end)) => dec_ocreply2(buf@, pos as int) == Ok::<_, DecodeError>(
                    (p.magic@, p.server_guid, p.server_addr, p.mtu, p.security, end as int),
                ) && p.wf() && pos < end <= buf@.len(),
                Err(e) => dec_ocreply2(buf@, pos as int) == Err::<
                    (Seq<u8>, u64, RakAddr, u16, bool, int),
                    _,
                >(e),
            },
    {
        let (magic, i1) = match decode_magic(buf, pos) {
            Ok(x) => x,
            Err(e) => return Err(e),
        };
        let (server_guid, i2) = match decode_u64_be(buf, i1) {
            Ok(x) => x,
            Err(e) => return Err(e),
        };
        let (server_addr, i3) = match decode_addr(buf, i2) {
            Ok(x) => x,
            Err(e) => return Err(e),
        };
        let (mtu, i4) = match decode_u16_be(buf, i3) {
            Ok(x) => x,
            Err(e) => return Err(e),
        };
        let (security, end) = match decode_bool(buf, i4) {
            Ok(x) => x,
            Err(e) => return Err(e),
        };
        Ok((OpenConnectionReply2 { magic, server_guid, server_addr, mtu, security }, end))
    }
}

/// Decoding an encoded `OpenConnectionReply2` yields the same fields.
pub proof fn lemma_ocreply2_round_trip(s: Seq<u8>, i: int, p: OpenConnectionReply2)
    requires
        0 <= i,
        p.wf(),
        i + p.spec_enc().len() <= s.len(),
        s.subrange(i, i + p.spec_enc().len()) == p.spec_enc(),
    ensures
        dec_ocreply2(s, i) == Ok::<_, DecodeError>(
            (
                p.magic@,
                p.server_guid,
                p.server_addr,
                p.mtu,
                p.security,
                i + p.spec_enc().len(),
            ),
        ),
{
    let e = p.spec_enc();
    let la = addr_enc_len(p.server_addr);
    assert(e.len() == 27 + la);
    assert(s.subrange(i, i + 16) =~= p.magic@) by {
        lemma_slice_of_slice(s, i, e, 0, 16);
        assert(e.subrange(0, 16) =~= p.magic@);
    }
    assert(s.subrange(i + 16, i + 24) =~= enc_u64_be(p.server_guid)) by {
        lemma_slice_of_slice(s, i, e, 16, 24);
        assert(e.subrange(16, 24) =~= enc_u64_be(p.server_guid));
    }
    lemma_u64_be_round_trip(s, i + 16, p.server_guid);
    assert(s.subrange(i + 24, i + 24 + la) =~= enc_addr(p.server_addr)) by {
        lemma_slice_of_slice(s, i, e, 24, 24 + la);
        assert(e.subrange(24, 24 + la) =~= enc_addr(p.server_addr));
    }
    lemma_addr_round_trip(s, i + 24, p.server_addr);
    assert(s.subrange(i + 24 + la, i + 26 + la) =~= enc_u16_be(p.mtu)) by {
        lemma_slice_of_slice(s, i, e, 24 + la, 26 + la);
        assert(e.subrange(24 + la, 26 + la) =~= enc_u16_be(p.mtu));
    }
    lemma_u16_be_round_trip(s, i + 24 + la, p.mtu);
    assert(s[i + 26 + la] == (if p.security {
        1u8
    } else {
        0u8
    })) by {
        assert(s.subrange(i, i + e.len())[26 + la] == s[i + 26 + la]);
        assert(e[26 + la] == (if p.security {
            1u8
        } else {
            0u8
        }));
    }
}

// ---------------------------------------------------------------------------
// ConnectionRequestAccepted (0x10): client address, system index, ten system
// addresses, request/accept timestamps
// ---------------------------------------------------------------------------

/// Server's acceptance of an online connection request.
pub struct ConnectionRequestAccepted {
    pub address: RakAddr,
    pub system_index: u16,
    pub system_addresses: Vec<RakAddr>,
    pub request_timestamp: u64,
    pub accepted_timestamp: u64,
}

/// Spec decoder: address, system index, ten addresses, two timestamps, end.
pub open spec fn dec_conn_accepted(s: Seq<u8>, i: int) -> Result<
    (RakAddr, u16, Seq<RakAddr>, u64, u64, int),
    DecodeError,
> {
    match dec_addr(s, i) {
        Err(e) => Err(e),
        Ok((addr, j)) => match dec_u16_be(s, j) {
            Err(e) => Err(e),
            Ok((sysidx, j2)) => match dec_addrs(s, j2, 10) {
                Err(e) => Err(e),
                Ok((aa, j3)) => match dec_u64_be(s, j3) {
                    Err(e) => Err(e),
                    Ok((t1, j4)) => match dec_u64_be(s, j4) {
                        Err(e) => Err(e),
                        Ok((t2, end)) => Ok((addr, sysidx, aa, t1, t2, end)),
                    },
                },
            },
        },
    }
}

impl ConnectionRequestAccepted {
    pub open spec fn wf(self) -> bool {
        self.system_addresses@.len() == 10
    }

    pub open spec fn spec_enc(self) -> Seq<u8> {
        enc_addr(self.address) + enc_u16_be(self.system_index) + enc_addrs(self.system_addresses@)
            + enc_u64_be(self.request_timestamp) + enc_u64_be(self.accepted_timestamp)
    }

    pub fn encode_body(&self, out: &mut Vec<u8>)
        requires
            self.wf(),
        ensures
            final(out)@ == old(out)@ + self.spec_enc(),
    {
        encode_addr(&self.address, out);
        encode_u16_be(self.system_index, out);
        encode_addrs(&self.system_addresses, out);
        encode_u64_be(self.request_timestamp, out);
        encode_u64_be(self.accepted_timestamp, out);
        assert(out@ =~= old(out)@ + self.spec_enc());
    }

    pub fn decode_body(buf: &Vec<u8>, pos: usize) -> (r: Result<
        (ConnectionRequestAccepted, usize),
        DecodeError,
    >)
        ensures
            match r {
                Ok((p, end)) => dec_conn_accepted(buf@, pos as int) == Ok::<_, DecodeError>(
                    (
                        p.address,
                        p.system_index,
                        p.system_addresses@,
                        p.request_timestamp,
                        p.accepted_timestamp,
                        end as int,
                    ),
                ) && p.wf() && pos < end <= buf@.len(),
                Err(e) => dec_conn_accepted(buf@, pos as int) == Err::<
                    (RakAddr, u16, Seq<RakAddr>, u64, u64, int),
                    _,
                >(e),
            },
    {
        let (address, i1) = match decode_addr(buf, pos) {
            Ok(x) => x,
            Err(e) => return Err(e),
        };
        let (system_index, i2) = match decode_u16_be(buf, i1) {
            Ok(x) => x,
            Err(e) => return Err(e),
        };
        let (system_addresses, i3) = match decode_addrs(buf, i2, 10) {
            Ok(x) => x,
            Err(e) => return Err(e),
        };
        let (request_timestamp, i4) = match decode_u64_be(buf, i3) {
            Ok(x) => x,
            Err(e) => return Err(e),
        };
        let (accepted_timestamp, end) = match decode_u64_be(buf, i4) {
            Ok(x) => x,
            Err(e) => return Err(e),
        };
        Ok(
            (
                ConnectionRequestAccepted {
                    address,
                    system_index,
                    system_addresses,
                    request_timestamp,
                    accepted_timestamp,
                },
                end,
            ),
        )
    }
}

/// Decoding an encoded `ConnectionRequestAccepted` yields the same fields.
#[verifier::rlimit(100)]
pub proof fn lemma_conn_accepted_round_trip(s: Seq<u8>, i: int, p: ConnectionRequestAccepted)
    requires
        0 <= i,
        p.wf(),
        i + p.spec_enc().len() <= s.len(),
        s.subrange(i, i + p.spec_enc().len()) == p.spec_enc(),
    ensures
        dec_conn_accepted(s, i) == Ok::<_, DecodeError>(
            (
                p.address,
                p.system_index,
                p.system_addresses@,
                p.request_timestamp,
                p.accepted_timestamp,
                i + p.spec_enc().len(),
            ),
        ),
{
    let e = p.spec_enc();
    let la = addr_enc_len(p.address);
    let laa = enc_addrs(p.system_addresses@).len() as int;
    assert(e.len() == la + 2 + laa + 16);
    assert(s.subrange(i, i + la) =~= enc_addr(p.address)) by {
        lemma_slice_of_slice(s, i, e, 0, la);
        assert(e.subrange(0, la) =~= enc_addr(p.address));
    }
    lemma_addr_round_trip(s, i, p.address);
    assert(s.subrange(i + la, i + la + 2) =~= enc_u16_be(p.system_index)) by {
        lemma_slice_of_slice(s, i, e, la, la + 2);
        assert(e.subrange(la, la + 2) =~= enc_u16_be(p.system_index));
    }
    lemma_u16_be_round_trip(s, i + la, p.system_index);
    assert(s.subrange(i + la + 2, i + la + 2 + laa) =~= enc_addrs(p.system_addresses@)) by {
        lemma_slice_of_slice(s, i, e, la + 2, la + 2 + laa);
        assert(e.subrange(la + 2, la + 2 + laa) =~= enc_addrs(p.system_addresses@));
    }
    lemma_addrs_round_trip(s, i + la + 2, p.system_addresses@);
    assert(s.subrange(i + la + 2 + laa, i + la + 10 + laa) =~= enc_u64_be(p.request_timestamp))
        by {
        lemma_slice_of_slice(s, i, e, la + 2 + laa, la + 10 + laa);
        assert(e.subrange(la + 2 + laa, la + 10 + laa) =~= enc_u64_be(p.request_timestamp));
    }
    lemma_u64_be_round_trip(s, i + la + 2 + laa, p.request_timestamp);
    assert(s.subrange(i + la + 10 + laa, i + la + 18 + laa) =~= enc_u64_be(p.accepted_timestamp))
        by {
        lemma_slice_of_slice(s, i, e, la + 10 + laa, la + 18 + laa);
        assert(e.subrange(la + 10 + laa, la + 18 + laa) =~= enc_u64_be(p.accepted_timestamp));
    }
    lemma_u64_be_round_trip(s, i + la + 10 + laa, p.accepted_timestamp);
}

// ---------------------------------------------------------------------------
// NewIncomingConnection (0x13): server address, ten system addresses, two
// timestamps
// ---------------------------------------------------------------------------

/// Client's confirmation that it considers the connection established.
pub struct NewIncomingConnection {
    pub server_address: RakAddr,
    pub system_addresses: Vec<RakAddr>,
    pub request_timestamp: u64,
    pub accepted_timestamp: u64,
}

/// Spec decoder: server address, ten addresses, two timestamps, end.
pub open spec fn dec_new_incoming(s: Seq<u8>, i: int) -> Result<
    (RakAddr, Seq<RakAddr>, u64, u64, int),
    DecodeError,
> {
    match dec_addr(s, i) {
        Err(e) => Err(e),
        Ok((addr, j)) => match dec_addrs(s, j, 10) {
            Err(e) => Err(e),
            Ok((aa, j2)) => match dec_u64_be(s, j2) {
                Err(e) => Err(e),
                Ok((t1, j3)) => match dec_u64_be(s, j3) {
                    Err(e) => Err(e),
                    Ok((t2, end)) => Ok((addr, aa, t1, t2, end)),
                },
            },
        },
    }
}

impl NewIncomingConnection {
    pub open spec fn wf(self) -> bool {
        self.system_addresses@.len() == 10
    }

    pub open spec fn spec_enc(self) -> Seq<u8> {
        enc_addr(self.server_address) + enc_addrs(self.system_addresses@) + enc_u64_be(
            self.request_timestamp,
        ) + enc_u64_be(self.accepted_timestamp)
    }

    pub fn encode_body(&self, out: &mut Vec<u8>)
        requires
            self.wf(),
        ensures
            final(out)@ == old(out)@ + self.spec_enc(),
    {
        encode_addr(&self.server_address, out);
        encode_addrs(&self.system_addresses, out);
        encode_u64_be(self.request_timestamp, out);
        encode_u64_be(self.accepted_timestamp, out);
        assert(out@ =~= old(out)@ + self.spec_enc());
    }

    pub fn decode_body(buf: &Vec<u8>, pos: usize) -> (r: Result<
        (NewIncomingConnection, usize),
        DecodeError,
    >)
        ensures
            match r {
                Ok((p, end)) => dec_new_incoming(buf@, pos as int) == Ok::<_, DecodeError>(
                    (
                        p.server_address,
                        p.system_addresses@,
                        p.request_timestamp,
                        p.accepted_timestamp,
                        end as int,
                    ),
                ) && p.wf() && pos < end <= buf@.len(),
                Err(e) => dec_new_incoming(buf@, pos as int) == Err::<
                    (RakAddr, Seq<RakAddr>, u64, u64, int),
                    _,
                >(e),
            },
    {
        let (server_address, i1) = match decode_addr(buf, pos) {
            Ok(x) => x,
            Err(e) => return Err(e),
        };
        let (system_addresses, i2) = match decode_addrs(buf, i1, 10) {
            Ok(x) => x,
            Err(e) => return Err(e),
        };
        let (request_timestamp, i3) = match decode_u64_be(buf, i2) {
            Ok(x) => x,
            Err(e) => return Err(e),
        };
        let (accepted_timestamp, end) = match decode_u64_be(buf, i3) {
            Ok(x) => x,
            Err(e) => return Err(e),
        };
        Ok(
            (
                NewIncomingConnection {
                    server_address,
                    system_addresses,
                    request_timestamp,
                    accepted_timestamp,
                },
                end,
            ),
        )
    }
}

/// Decoding an encoded `NewIncomingConnection` yields the same fields.
#[verifier::rlimit(100)]
pub proof fn lemma_new_incoming_round_trip(s: Seq<u8>, i: int, p: NewIncomingConnection)
    requires
        0 <= i,
        p.wf(),
        i + p.spec_enc().len() <= s.len(),
        s.subrange(i, i + p.spec_enc().len()) == p.spec_enc(),
    ensures
        dec_new_incoming(s, i) == Ok::<_, DecodeError>(
            (
                p.server_address,
                p.system_addresses@,
                p.request_timestamp,
                p.accepted_timestamp,
                i + p.spec_enc().len(),
            ),
        ),
{
    let e = p.spec_enc();
    let la = addr_enc_len(p.server_address);
    let laa = enc_addrs(p.system_addresses@).len() as int;
    assert(e.len() == la + laa + 16);
    assert(s.subrange(i, i + la) =~= enc_addr(p.server_address)) by {
        lemma_slice_of_slice(s, i, e, 0, la);
        assert(e.subrange(0, la) =~= enc_addr(p.server_address));
    }
    lemma_addr_round_trip(s, i, p.server_address);
    assert(s.subrange(i + la, i + la + laa) =~= enc_addrs(p.system_addresses@)) by {
        lemma_slice_of_slice(s, i, e, la, la + laa);
        assert(e.subrange(la, la + laa) =~= enc_addrs(p.system_addresses@));
    }
    lemma_addrs_round_trip(s, i + la, p.system_addresses@);
    assert(s.subrange(i + la + laa, i + la + laa + 8) =~= enc_u64_be(p.request_timestamp)) by {
        lemma_slice_of_slice(s, i, e, la + laa, la + laa + 8);
        assert(e.subrange(la + laa, la + laa + 8) =~= enc_u64_be(p.request_timestamp));
    }
    lemma_u64_be_round_trip(s, i + la + laa, p.request_timestamp);
    assert(s.subrange(i + la + laa + 8, i + la + laa + 16) =~= enc_u64_be(p.accepted_timestamp))
        by {
        lemma_slice_of_slice(s, i, e, la + laa + 8, la + laa + 16);
        assert(e.subrange(la + laa + 8, la + laa + 16) =~= enc_u64_be(p.accepted_timestamp));
    }
    lemma_u64_be_round_trip(s, i + la + laa + 8, p.accepted_timestamp);
}

// ---------------------------------------------------------------------------
// UnconnectedPong (0x1c): ping time, guid, magic, advertisement
// ---------------------------------------------------------------------------

/// Server's answer to an unconnected ping, carrying the advertisement.
pub struct UnconnectedPong {
    pub ping_time: u64,
    pub server_guid: u64,
    pub magic: Vec<u8>,
    pub advertisement: Option<Vec<u8>>,
}

/// Spec decoder: ping time, guid, magic, advertisement, end. The
/// advertisement runs to the end of the buffer.
pub open spec fn dec_unconnected_pong(s: Seq<u8>, i: int) -> Result<
    (u64, u64, Seq<u8>, Option<Seq<u8>>, int),
    DecodeError,
> {
    match dec_u64_be(s, i) {
        Err(e) => Err(e),
        Ok((t, j)) => match dec_u64_be(s, j) {
            Err(e) => Err(e),
            Ok((guid, j2)) => if j2 + 16 <= s.len() {
                match dec_advert(s, j2 + 16) {
                    Err(e) => Err(e),
                    Ok((ad, end)) => Ok((t, guid, s.subrange(j2, j2 + 16), ad, end)),
                }
            } else {
                Err(DecodeError::UnexpectedEof)
            },
        },
    }
}

impl UnconnectedPong {
    pub open spec fn wf(self) -> bool {
        self.magic@.len() == 16
    }

    pub open spec fn view_advert(self) -> Option<Seq<u8>> {
        match self.advertisement {
            Some(b) => Some(b@),
            None => None,
        }
    }

    pub open spec fn spec_enc(self) -> Seq<u8> {
        enc_u64_be(self.ping_time) + enc_u64_be(self.server_guid) + self.magic@ + enc_advert(
            self.view_advert(),
        )
    }

    pub fn encode_body(&self, out: &mut Vec<u8>)
        requires
            self.wf(),
        ensures
            final(out)@ == old(out)@ + self.spec_enc(),
    {
        encode_u64_be(self.ping_time, out);
        encode_u64_be(self.server_guid, out);
        encode_magic(&self.magic, out);
        encode_advert(&self.advertisement, out);
        assert(out@ =~= old(out)@ + self.spec_enc());
    }

    pub fn decode_body(buf: &Vec<u8>, pos: usize) -> (r: Result<
        (UnconnectedPong, usize),
        DecodeError,
    >)
        ensures
            match r {
                Ok((p, end)) => dec_unconnected_pong(buf@, pos as int) == Ok::<_, DecodeError>(
                    (p.ping_time, p.server_guid, p.magic@, p.view_advert(), end as int),
                ) && p.wf() && pos < end <= buf@.len(),
                Err(e) => dec_unconnected_pong(buf@, pos as int) == Err::<
                    (u64, u64, Seq<u8>, Option<Seq<u8>>, int),
                    _,
                >(e),
            },
    {
        let (ping_time, i1) = match decode_u64_be(buf, pos) {
            Ok(x) => x,
            Err(e) => return Err(e),
        };
        let (server_guid, i2) = match decode_u64_be(buf, i1) {
            Ok(x) => x,
            Err(e) => return Err(e),
        };
        let (magic, i3) = match decode_magic(buf, i2) {
            Ok(x) => x,
            Err(e) => return Err(e),
        };
        let (advertisement, end) = match decode_advert(buf, i3) {
            Ok(x) => x,
            Err(e) => return Err(e),
        };
        Ok((UnconnectedPong { ping_time, server_guid, magic, advertisement }, end))
    }
}

/// Decoding an encoded `UnconnectedPong` that ends the buffer yields the same
/// fields. An empty advertisement encodes as nothing, so it comes back as
/// absent; the lemma therefore asks that the advertisement be absent or
/// non-empty, and short enough for its length prefix.
#[verifier::rlimit(100)]
pub proof fn lemma_unconnected_pong_round_trip(s: Seq<u8>, i: int, p: UnconnectedPong)
    requires
        0 <= i,
        p.wf(),
        match p.view_advert() {
            Some(b) => 0 < b.len() <= 0xffff,
            None => true,
        },
        i + p.spec_enc().len() == s.len(),
        s.subrange(i, s.len() as int) == p.spec_enc(),
    ensures
        dec_unconnected_pong(s, i) == Ok::<_, DecodeError>(
            (p.ping_time, p.server_guid, p.magic@, p.view_advert(), s.len() as int),
        ),
{
    let e = p.spec_enc();
    let lad = enc_advert(p.view_advert()).len() as int;
    assert(e.len() == 32 + lad);
    assert(s.subrange(i, i + 8) =~= enc_u64_be(p.ping_time)) by {
        lemma_slice_of_slice(s, i, e, 0, 8);
        assert(e.subrange(0, 8) =~= enc_u64_be(p.ping_time));
    }
    lemma_u64_be_round_trip(s, i, p.ping_time);
    assert(s.subrange(i + 8, i + 16) =~= enc_u64_be(p.server_guid)) by {
        lemma_slice_of_slice(s, i, e, 8, 16);
        assert(e.subrange(8, 16) =~= enc_u64_be(p.server_guid));
    }
    lemma_u64_be_round_trip(s, i + 8, p.server_guid);
    assert(s.subrange(i + 16, i + 32) =~= p.magic@) by {
        lemma_slice_of_slice(s, i, e, 16, 32);
        assert(e.subrange(16, 32) =~= p.magic@);
    }
    assert(s.subrange(i + 32, s.len() as int) =~= enc_advert(p.view_advert())) by {
        lemma_slice_of_slice(s, i, e, 32, 32 + lad);
        assert(e.subrange(32, 32 + lad) =~= enc_advert(p.view_advert()));
    }
    lemma_advert_round_trip(s, i + 32, p.view_advert());
}

// ---------------------------------------------------------------------------
// UnconnectedPingOpenConnections (0x02): accepted on the wire, but its body
// is unimplemented; decoding reports it as such with the raw payload.
// ---------------------------------------------------------------------------

/// Legacy discovery packet; decoding always reports it unimplemented.
pub struct UnconnectedPingOpenConnections {
    pub payload: Vec<u8>,
}

impl UnconnectedPingOpenConnections {
    pub open spec fn spec_enc(self) -> Seq<u8> {
        self.payload@
    }

    pub fn encode_body(&self, out: &mut Vec<u8>)
        ensures
            final(out)@ == old(out)@ + self.spec_enc(),
    {
        append_bytes(&self.payload, out);
    }

    /// Always fails with `UnimplementedPacket` carrying the remaining bytes.
    pub fn decode_body(buf: &Vec<u8>, pos: usize) -> (r: Result<
        (UnconnectedPingOpenConnections, usize),
        DecodeError,
    >)
        requires
            pos <= buf@.len(),
        ensures
            r matches Err(e) && (e matches DecodeError::UnimplementedPacket { id, payload }
                && id == ID_UNCONNECTED_PING_OPEN_CONNECTIONS && payload@ == buf@.subrange(
                pos as int,
                buf@.len() as int,
            )),
    {
        let n = buf.len() - pos;
        let (payload, _end) = match read_bytes(buf, pos, n) {
            Ok(x) => x,
            Err(_) => {
                proof {
                    assert(false);
                }
                (Vec::new(), pos)
            },
        };
        Err(
            DecodeError::UnimplementedPacket {
                id: ID_UNCONNECTED_PING_OPEN_CONNECTIONS,
                payload,
            },
        )
    }
}

// ---------------------------------------------------------------------------
// DisconnectionNotification (0x15): no body
// ---------------------------------------------------------------------------

/// Clean-shutdown notice; the body is empty.
pub struct DisconnectionNotification {
}

// ---------------------------------------------------------------------------
// The tagged sum over every packet, dispatched by the leading ID byte
// ---------------------------------------------------------------------------

/// Any RakNet packet: one variant per control packet, plus opaque user data
/// for IDs of 0x80 and above.
pub enum RaknetPacket {
    ConnectedPing(ConnectedPing),
    UnconnectedPing(UnconnectedPing),
    UnconnectedPingOpenConnections(UnconnectedPingOpenConnections),
    ConnectedPong(ConnectedPong),
    OpenConnectionRequest1(OpenConnectionRequest1),
    OpenConnectionReply1(OpenConnectionReply1),
    OpenConnectionRequest2(OpenConnectionRequest2),
    OpenConnectionReply2(OpenConnectionReply2),
    ConnectionRequest(ConnectionRequest),
    ConnectionRequestAccepted(ConnectionRequestAccepted),
    ConnectionRequestFailed(ConnectionRequestFailed),
    AlreadyConnected(AlreadyConnected),
    NewIncomingConnection(NewIncomingConnection),
    DisconnectionNotification(DisconnectionNotification),
    IncompatibleProtocolVersion(IncompatibleProtocolVersion),
    UnconnectedPong(UnconnectedPong),
    UserData { id: u8, payload: Vec<u8> },
}

/// The ID byte written before the body.
pub open spec fn spec_packet_id(p: RaknetPacket) -> u8 {
    match p {
        RaknetPacket::ConnectedPing(_) => ID_CONNECTED_PING,
        RaknetPacket::UnconnectedPing(_) => ID_UNCONNECTED_PING,
        RaknetPacket::UnconnectedPingOpenConnections(_) => ID_UNCONNECTED_PING_OPEN_CONNECTIONS,
        RaknetPacket::ConnectedPong(_) => ID_CONNECTED_PONG,
        RaknetPacket::OpenConnectionRequest1(_) => ID_OPEN_CONNECTION_REQUEST_1,
        RaknetPacket::OpenConnectionReply1(_) => ID_OPEN_CONNECTION_REPLY_1,
        RaknetPacket::OpenConnectionRequest2(_) => ID_OPEN_CONNECTION_REQUEST_2,
        RaknetPacket::OpenConnectionReply2(_) => ID_OPEN_CONNECTION_REPLY_2,
        RaknetPacket::ConnectionRequest(_) => ID_CONNECTION_REQUEST,
        RaknetPacket::ConnectionRequestAccepted(_) => ID_CONNECTION_REQUEST_ACCEPTED,
        RaknetPacket::ConnectionRequestFailed(_) => ID_CONNECTION_REQUEST_FAILED,
        RaknetPacket::AlreadyConnected(_) => ID_ALREADY_CONNECTED,
        RaknetPacket::NewIncomingConnection(_) => ID_NEW_INCOMING_CONNECTION,
        RaknetPacket::DisconnectionNotification(_) => ID_DISCONNECTION_NOTIFICATION,
        RaknetPacket::IncompatibleProtocolVersion(_) => ID_INCOMPATIBLE_PROTOCOL_VERSION,
        RaknetPacket::UnconnectedPong(_) => ID_UNCONNECTED_PONG,
        RaknetPacket::UserData { id, .. } => id,
    }
}

/// A control ID that `RaknetPacket::decode` knows how to dispatch.
pub open spec fn is_known_control_id(b: u8) -> bool {
    b == ID_CONNECTED_PING || b == ID_UNCONNECTED_PING || b
        == ID_UNCONNECTED_PING_OPEN_CONNECTIONS || b == ID_CONNECTED_PONG || b
        == ID_OPEN_CONNECTION_REQUEST_1 || b == ID_OPEN_CONNECTION_REPLY_1 || b
        == ID_OPEN_CONNECTION_REQUEST_2 || b == ID_OPEN_CONNECTION_REPLY_2 || b
        == ID_CONNECTION_REQUEST || b == ID_CONNECTION_REQUEST_ACCEPTED || b
        == ID_CONNECTION_REQUEST_FAILED || b == ID_ALREADY_CONNECTED || b
        == ID_NEW_INCOMING_CONNECTION || b == ID_DISCONNECTION_NOTIFICATION || b
        == ID_INCOMPATIBLE_PROTOCOL_VERSION || b == ID_UNCONNECTED_PONG
}

/// What a successful packet decode at `i` returning `(p, end)` means.
pub open spec fn packet_decode_ok(sbuf: Seq<u8>, i: int, p: RaknetPacket, end: int) -> bool {
                    i < sbuf.len() && spec_packet_id(p) == sbuf[i]
        && i < end <= sbuf.len() && match p {
                    RaknetPacket::ConnectedPing(b) => dec_u64_be(sbuf, i + 1) == Ok::<
                        _,
                        DecodeError,
                    >((b.ping_time, end)),
                    RaknetPacket::UnconnectedPing(b) => dec_unconnected_ping(sbuf, i + 1)
                        == Ok::<_, DecodeError>((b.ping_time, b.magic@, end)),
                    RaknetPacket::UnconnectedPingOpenConnections(_) => false,
                    RaknetPacket::ConnectedPong(b) => dec_connected_pong(sbuf, i + 1) == Ok::<
                        _,
                        DecodeError,
                    >((b.ping_time, b.pong_time, end)),
                    RaknetPacket::OpenConnectionRequest1(b) => dec_ocr1(sbuf, i + 1) == Ok::<
                        _,
                        DecodeError,
                    >((b.magic@, b.protocol_version, b.padding as int, end)),
                    RaknetPacket::OpenConnectionReply1(b) => dec_ocreply1(sbuf, i + 1) == Ok::<
                        _,
                        DecodeError,
                    >((b.magic@, b.server_guid, b.cookie, b.mtu, end)),
                    RaknetPacket::OpenConnectionRequest2(b) => dec_ocr2(sbuf, i + 1) == Ok::<
                        _,
                        DecodeError,
                    >((b.magic@, b.cookie, b.client_proof, b.server_addr, b.mtu, b.client_guid))
                        && end == sbuf.len(),
                    RaknetPacket::OpenConnectionReply2(b) => dec_ocreply2(sbuf, i + 1) == Ok::<
                        _,
                        DecodeError,
                    >((b.magic@, b.server_guid, b.server_addr, b.mtu, b.security, end)),
                    RaknetPacket::ConnectionRequest(b) => dec_connection_request(sbuf, i + 1)
                        == Ok::<_, DecodeError>(
                        (b.server_guid, b.timestamp, b.secure, end),
                    ),
                    RaknetPacket::ConnectionRequestAccepted(b) => dec_conn_accepted(
                        sbuf,
                        i + 1,
                    ) == Ok::<_, DecodeError>(
                        (
                            b.address,
                            b.system_index,
                            b.system_addresses@,
                            b.request_timestamp,
                            b.accepted_timestamp,
                            end,
                        ),
                    ),
                    RaknetPacket::ConnectionRequestFailed(b) => dec_magic_guid(sbuf, i + 1)
                        == Ok::<_, DecodeError>((b.magic@, b.server_guid, end)),
                    RaknetPacket::AlreadyConnected(b) => dec_magic_guid(sbuf, i + 1) == Ok::<
                        _,
                        DecodeError,
                    >((b.magic@, b.server_guid, end)),
                    RaknetPacket::NewIncomingConnection(b) => dec_new_incoming(sbuf, i + 1)
                        == Ok::<_, DecodeError>(
                        (
                            b.server_address,
                            b.system_addresses@,
                            b.request_timestamp,
                            b.accepted_timestamp,
                            end,
                        ),
                    ),
                    RaknetPacket::DisconnectionNotification(_) => end == i + 1,
                    RaknetPacket::IncompatibleProtocolVersion(b) => dec_incompatible(
                        sbuf,
                        i + 1,
                    ) == Ok::<_, DecodeError>(
                        (b.protocol, b.magic@, b.server_guid, end),
                    ),
                    RaknetPacket::UnconnectedPong(b) => dec_unconnected_pong(sbuf, i + 1)
                        == Ok::<_, DecodeError>(
                        (b.ping_time, b.server_guid, b.magic@, b.view_advert(), end),
                    ),
                    RaknetPacket::UserData { id, payload } => id >= 0x80 && payload@
                        == sbuf.subrange(i + 1, sbuf.len() as int) && end == sbuf.len(),
    }
}

/// What an error from decoding a known control packet means: the body
/// decoder of the id at `i` failed with this very error. The legacy
/// discovery id always reports itself unimplemented with the body bytes.
#[verifier::opaque]
pub open spec fn packet_decode_err(s: Seq<u8>, i: int, e: DecodeError) -> bool {
    let b = s[i];
    if b == ID_CONNECTED_PING {
        dec_u64_be(s, i + 1) == Err::<(u64, int), _>(e)
    } else if b == ID_UNCONNECTED_PING {
        dec_unconnected_ping(s, i + 1) == Err::<(u64, Seq<u8>, int), _>(e)
    } else if b == ID_UNCONNECTED_PING_OPEN_CONNECTIONS {
        e matches DecodeError::UnimplementedPacket { id, payload } && id == b && payload@
            == s.subrange(i + 1, s.len() as int)
    } else if b == ID_CONNECTED_PONG {
        dec_connected_pong(s, i + 1) == Err::<(u64, u64, int), _>(e)
    } else if b == ID_OPEN_CONNECTION_REQUEST_1 {
        dec_ocr1(s, i + 1) == Err::<(Seq<u8>, u8, int, int), _>(e)
    } else if b == ID_OPEN_CONNECTION_REPLY_1 {
        dec_ocreply1(s, i + 1) == Err::<(Seq<u8>, u64, Option<u32>, u16, int), _>(e)
    } else if b == ID_OPEN_CONNECTION_REQUEST_2 {
        dec_ocr2(s, i + 1) == Err::<(Seq<u8>, Option<u32>, bool, RakAddr, u16, u64), _>(e)
    } else if b == ID_OPEN_CONNECTION_REPLY_2 {
        dec_ocreply2(s, i + 1) == Err::<(Seq<u8>, u64, RakAddr, u16, bool, int), _>(e)
    } else if b == ID_CONNECTION_REQUEST {
        dec_connection_request(s, i + 1) == Err::<(u64, u64, bool, int), _>(e)
    } else if b == ID_CONNECTION_REQUEST_ACCEPTED {
        dec_conn_accepted(s, i + 1) == Err::<(RakAddr, u16, Seq<RakAddr>, u64, u64, int), _>(e)
    } else if b == ID_CONNECTION_REQUEST_FAILED {
        dec_magic_guid(s, i + 1) == Err::<(Seq<u8>, u64, int), _>(e)
    } else if b == ID_ALREADY_CONNECTED {
        dec_magic_guid(s, i + 1) == Err::<(Seq<u8>, u64, int), _>(e)
    } else if b == ID_NEW_INCOMING_CONNECTION {
        dec_new_incoming(s, i + 1) == Err::<(RakAddr, Seq<RakAddr>, u64, u64, int), _>(e)
    } else if b == ID_DISCONNECTION_NOTIFICATION {
        false
    } else if b == ID_INCOMPATIBLE_PROTOCOL_VERSION {
        dec_incompatible(s, i + 1) == Err::<(u8, Seq<u8>, u64, int), _>(e)
    } else if b == ID_UNCONNECTED_PONG {
        dec_unconnected_pong(s, i + 1) == Err::<(u64, u64, Seq<u8>, Option<Seq<u8>>, int), _>(e)
    } else {
        false
    }
}

/// Runtime test of `is_known_control_id`.
pub fn is_known_control_id_exec(b: u8) -> (r: bool)
    ensures
        r == is_known_control_id(b),
{
    b == ID_CONNECTED_PING || b == ID_UNCONNECTED_PING || b
        == ID_UNCONNECTED_PING_OPEN_CONNECTIONS || b == ID_CONNECTED_PONG || b
        == ID_OPEN_CONNECTION_REQUEST_1 || b == ID_OPEN_CONNECTION_REPLY_1 || b
        == ID_OPEN_CONNECTION_REQUEST_2 || b == ID_OPEN_CONNECTION_REPLY_2 || b
        == ID_CONNECTION_REQUEST || b == ID_CONNECTION_REQUEST_ACCEPTED || b
        == ID_CONNECTION_REQUEST_FAILED || b == ID_ALREADY_CONNECTED || b
        == ID_NEW_INCOMING_CONNECTION || b == ID_DISCONNECTION_NOTIFICATION || b
        == ID_INCOMPATIBLE_PROTOCOL_VERSION || b == ID_UNCONNECTED_PONG
}

impl RaknetPacket {
    /// Well-formedness of the contained body.
    pub open spec fn wf(self) -> bool {
        match self {
            RaknetPacket::UnconnectedPing(b) => b.wf(),
            RaknetPacket::OpenConnectionRequest1(b) => b.wf(),
            RaknetPacket::OpenConnectionReply1(b) => b.wf(),
            RaknetPacket::OpenConnectionRequest2(b) => b.wf(),
            RaknetPacket::OpenConnectionReply2(b) => b.wf(),
            RaknetPacket::ConnectionRequestAccepted(b) => b.wf(),
            RaknetPacket::ConnectionRequestFailed(b) => b.wf(),
            RaknetPacket::AlreadyConnected(b) => b.wf(),
            RaknetPacket::NewIncomingConnection(b) => b.wf(),
            RaknetPacket::IncompatibleProtocolVersion(b) => b.wf(),
            RaknetPacket::UnconnectedPong(b) => b.wf(),
            RaknetPacket::UserData { id, .. } => id >= 0x80,
            _ => true,
        }
    }

    /// Encoding of the body alone, without the ID byte.
    pub open spec fn spec_enc_body(self) -> Seq<u8> {
        match self {
            RaknetPacket::ConnectedPing(b) => b.spec_enc(),
            RaknetPacket::UnconnectedPing(b) => b.spec_enc(),
            RaknetPacket::UnconnectedPingOpenConnections(b) => b.spec_enc(),
            RaknetPacket::ConnectedPong(b) => b.spec_enc(),
            RaknetPacket::OpenConnectionRequest1(b) => b.spec_enc(),
            RaknetPacket::OpenConnectionReply1(b) => b.spec_enc(),
            RaknetPacket::OpenConnectionRequest2(b) => b.spec_enc(),
            RaknetPacket::OpenConnectionReply2(b) => b.spec_enc(),
            RaknetPacket::ConnectionRequest(b) => b.spec_enc(),
            RaknetPacket::ConnectionRequestAccepted(b) => b.spec_enc(),
            RaknetPacket::ConnectionRequestFailed(b) => b.spec_enc(),
            RaknetPacket::AlreadyConnected(b) => b.spec_enc(),
            RaknetPacket::NewIncomingConnection(b) => b.spec_enc(),
            RaknetPacket::DisconnectionNotification(_) => Seq::empty(),
            RaknetPacket::IncompatibleProtocolVersion(b) => b.spec_enc(),
            RaknetPacket::UnconnectedPong(b) => b.spec_enc(),
            RaknetPacket::UserData { payload, .. } => payload@,
        }
    }

    /// Whole-packet encoding: the ID byte, then the body.
    pub open spec fn spec_enc(self) -> Seq<u8> {
        seq![spec_packet_id(self)] + self.spec_enc_body()
    }

    pub fn id(&self) -> (r: u8)
        ensures
            r == spec_packet_id(*self),
    {
        match self {
            RaknetPacket::ConnectedPing(_) => ID_CONNECTED_PING,
            RaknetPacket::UnconnectedPing(_) => ID_UNCONNECTED_PING,
            RaknetPacket::UnconnectedPingOpenConnections(_) => {
                ID_UNCONNECTED_PING_OPEN_CONNECTIONS
            },
            RaknetPacket::ConnectedPong(_) => ID_CONNECTED_PONG,
            RaknetPacket::OpenConnectionRequest1(_) => ID_OPEN_CONNECTION_REQUEST_1,
            RaknetPacket::OpenConnectionReply1(_) => ID_OPEN_CONNECTION_REPLY_1,
            RaknetPacket::OpenConnectionRequest2(_) => ID_OPEN_CONNECTION_REQUEST_2,
            RaknetPacket::OpenConnectionReply2(_) => ID_OPEN_CONNECTION_REPLY_2,
            RaknetPacket::ConnectionRequest(_) => ID_CONNECTION_REQUEST,
            RaknetPacket::ConnectionRequestAccepted(_) => ID_CONNECTION_REQUEST_ACCEPTED,
            RaknetPacket::ConnectionRequestFailed(_) => ID_CONNECTION_REQUEST_FAILED,
            RaknetPacket::AlreadyConnected(_) => ID_ALREADY_CONNECTED,
            RaknetPacket::NewIncomingConnection(_) => ID_NEW_INCOMING_CONNECTION,
            RaknetPacket::DisconnectionNotification(_) => ID_DISCONNECTION_NOTIFICATION,
            RaknetPacket::IncompatibleProtocolVersion(_) => ID_INCOMPATIBLE_PROTOCOL_VERSION,
            RaknetPacket::UnconnectedPong(_) => ID_UNCONNECTED_PONG,
            RaknetPacket::UserData { id, .. } => *id,
        }
    }

    /// Writes the ID byte and the body.
    pub fn encode(&self, out: &mut Vec<u8>)
        requires
            self.wf(),
        ensures
            final(out)@ == old(out)@ + self.spec_enc(),
    {
        let id = self.id();
        out.push(id);
        match self {
            RaknetPacket::ConnectedPing(b) => b.encode_body(out),
            RaknetPacket::UnconnectedPing(b) => b.encode_body(out),
            RaknetPacket::UnconnectedPingOpenConnections(b) => b.encode_body(out),
            RaknetPacket::ConnectedPong(b) => b.encode_body(out),
            RaknetPacket::OpenConnectionRequest1(b) => b.encode_body(out),
            RaknetPacket::OpenConnectionReply1(b) => b.encode_body(out),
            RaknetPacket::OpenConnectionRequest2(b) => b.encode_body(out),
            RaknetPacket::OpenConnectionReply2(b) => b.encode_body(out),
            RaknetPacket::ConnectionRequest(b) => b.encode_body(out),
            RaknetPacket::ConnectionRequestAccepted(b) => b.encode_body(out),
            RaknetPacket::ConnectionRequestFailed(b) => b.encode_body(out),
            RaknetPacket::AlreadyConnected(b) => b.encode_body(out),
            RaknetPacket::NewIncomingConnection(b) => b.encode_body(out),
            RaknetPacket::DisconnectionNotification(_) => {},
            RaknetPacket::IncompatibleProtocolVersion(b) => b.encode_body(out),
            RaknetPacket::UnconnectedPong(b) => b.encode_body(out),
            RaknetPacket::UserData { payload, .. } => append_bytes(payload, out),
        }
        assert(out@ =~= old(out)@ + self.spec_enc());
    }

    /// Dispatches the control IDs up to `ConnectionRequest`.
    #[verifier::rlimit(100)]
    fn decode_lower(buf: &Vec<u8>, pos: usize) -> (r: Result<(RaknetPacket, usize), DecodeError>)
        requires
            pos < buf@.len(),
            is_known_control_id(buf@[pos as int]),
            buf@[pos as int] == ID_CONNECTED_PING || buf@[pos as int] == ID_UNCONNECTED_PING
                || buf@[pos as int] == ID_UNCONNECTED_PING_OPEN_CONNECTIONS || buf@[pos as int]
                == ID_CONNECTED_PONG || buf@[pos as int] == ID_OPEN_CONNECTION_REQUEST_1 || buf@[
                pos as int] == ID_OPEN_CONNECTION_REPLY_1 || buf@[pos as int]
                == ID_OPEN_CONNECTION_REQUEST_2 || buf@[pos as int] == ID_OPEN_CONNECTION_REPLY_2
                || buf@[pos as int] == ID_CONNECTION_REQUEST,
        ensures
            match r {
                Ok((p, end)) => packet_decode_ok(buf@, pos as int, p, end as int),
                Err(e) => packet_decode_err(buf@, pos as int, e),
            },
    {
        proof {
            reveal(packet_decode_err);
        }
        let len = buf.len();
        let id = buf[pos];
        let p = pos + 1;
        match id {
            ID_CONNECTED_PING => match ConnectedPing::decode_body(buf, p) {
                Ok((b, end)) => Ok((RaknetPacket::ConnectedPing(b), end)),
                Err(e) => Err(e),
            },
            ID_UNCONNECTED_PING => match UnconnectedPing::decode_body(buf, p) {
                Ok((b, end)) => Ok((RaknetPacket::UnconnectedPing(b), end)),
                Err(e) => Err(e),
            },
            ID_UNCONNECTED_PING_OPEN_CONNECTIONS => {
                match UnconnectedPingOpenConnections::decode_body(buf, p) {
                    Ok((b, end)) => Ok((RaknetPacket::UnconnectedPingOpenConnections(b), end)),
                    Err(e) => Err(e),
                }
            },
            ID_CONNECTED_PONG => match ConnectedPong::decode_body(buf, p) {
                Ok((b, end)) => Ok((RaknetPacket::ConnectedPong(b), end)),
                Err(e) => Err(e),
            },
            ID_OPEN_CONNECTION_REQUEST_1 => match OpenConnectionRequest1::decode_body(buf, p) {
                Ok((b, end)) => Ok((RaknetPacket::OpenConnectionRequest1(b), end)),
                Err(e) => Err(e),
            },
            ID_OPEN_CONNECTION_REPLY_1 => match OpenConnectionReply1::decode_body(buf, p) {
                Ok((b, end)) => Ok((RaknetPacket::OpenConnectionReply1(b), end)),
                Err(e) => Err(e),
            },
            ID_OPEN_CONNECTION_REQUEST_2 => match OpenConnectionRequest2::decode_body(buf, p) {
                Ok((b, end)) => Ok((RaknetPacket::OpenConnectionRequest2(b), end)),
                Err(e) => Err(e),
            },
            ID_OPEN_CONNECTION_REPLY_2 => match OpenConnectionReply2::decode_body(buf, p) {
                Ok((b, end)) => Ok((RaknetPacket::OpenConnectionReply2(b), end)),
                Err(e) => Err(e),
            },
            _ => match ConnectionRequest::decode_body(buf, p) {
                Ok((b, end)) => Ok((RaknetPacket::ConnectionRequest(b), end)),
                Err(e) => Err(e),
            },
        }
    }

    /// Dispatches the control IDs from `ConnectionRequestAccepted` up.
    #[verifier::rlimit(100)]
    fn decode_upper(buf: &Vec<u8>, pos: usize) -> (r: Result<(RaknetPacket, usize), DecodeError>)
        requires
            pos < buf@.len(),
            is_known_control_id(buf@[pos as int]),
            buf@[pos as int] == ID_CONNECTION_REQUEST_ACCEPTED || buf@[pos as int]
                == ID_CONNECTION_REQUEST_FAILED || buf@[pos as int] == ID_ALREADY_CONNECTED
                || buf@[pos as int] == ID_NEW_INCOMING_CONNECTION || buf@[pos as int]
                == ID_DISCONNECTION_NOTIFICATION || buf@[pos as int]
                == ID_INCOMPATIBLE_PROTOCOL_VERSION || buf@[pos as int] == ID_UNCONNECTED_PONG,
        ensures
            match r {
                Ok((p, end)) => packet_decode_ok(buf@, pos as int, p, end as int),
                Err(e) => packet_decode_err(buf@, pos as int, e),
            },
    {
        proof {
            reveal(packet_decode_err);
        }
        let len = buf.len();
        let id = buf[pos];
        let p = pos + 1;
        if id == ID_CONNECTION_REQUEST_ACCEPTED || id == ID_NEW_INCOMING_CONNECTION {
            return RaknetPacket::decode_system(buf, pos);
        }
        match id {
            ID_CONNECTION_REQUEST_FAILED => match ConnectionRequestFailed::decode_body(buf, p) {
                Ok((b, end)) => Ok((RaknetPacket::ConnectionRequestFailed(b), end)),
                Err(e) => Err(e),
            },
            ID_ALREADY_CONNECTED => match AlreadyConnected::decode_body(buf, p) {
                Ok((b, end)) => Ok((RaknetPacket::AlreadyConnected(b), end)),
                Err(e) => Err(e),
            },
            ID_DISCONNECTION_NOTIFICATION => Ok(
                (RaknetPacket::DisconnectionNotification(DisconnectionNotification {}), p),
            ),
            ID_INCOMPATIBLE_PROTOCOL_VERSION => {
                match IncompatibleProtocolVersion::decode_body(buf, p) {
                    Ok((b, end)) => Ok((RaknetPacket::IncompatibleProtocolVersion(b), end)),
                    Err(e) => Err(e),
                }
            },
            _ => match UnconnectedPong::decode_body(buf, p) {
                Ok((b, end)) => Ok((RaknetPacket::UnconnectedPong(b), end)),
                Err(e) => Err(e),
            },
        }
    }

    /// Dispatches the two packets that carry the ten system addresses.
    #[verifier::rlimit(100)]
    fn decode_system(buf: &Vec<u8>, pos: usize) -> (r: Result<
        (RaknetPacket, usize),
        DecodeError,
    >)
        requires
            pos < buf@.len(),
            buf@[pos as int] == ID_CONNECTION_REQUEST_ACCEPTED || buf@[pos as int]
                == ID_NEW_INCOMING_CONNECTION,
        ensures
            match r {
                Ok((p, end)) => packet_decode_ok(buf@, pos as int, p, end as int),
                Err(e) => packet_decode_err(buf@, pos as int, e),
            },
    {
        proof {
            reveal(packet_decode_err);
        }
        let len = buf.len();
        let id = buf[pos];
        let p = pos + 1;
        if id == ID_CONNECTION_REQUEST_ACCEPTED {
            match ConnectionRequestAccepted::decode_body(buf, p) {
                Ok((b, end)) => Ok((RaknetPacket::ConnectionRequestAccepted(b), end)),
                Err(e) => Err(e),
            }
        } else {
            match NewIncomingConnection::decode_body(buf, p) {
                Ok((b, end)) => Ok((RaknetPacket::NewIncomingConnection(b), end)),
                Err(e) => Err(e),
            }
        }
    }

    /// Reads the ID byte and dispatches to the body decoder. IDs of 0x80 and
    /// above take the rest of the buffer verbatim as user data; unknown
    /// control IDs are rejected.
    #[verifier::rlimit(100)]
    #[verifier::spinoff_prover]
    pub fn decode(buf: &Vec<u8>, pos: usize) -> (r: Result<(RaknetPacket, usize), DecodeError>)
        requires
            pos <= buf@.len(),
        ensures
            match r {
                Ok((p, end)) => packet_decode_ok(buf@, pos as int, p, end as int),
                Err(e) => {
                    ||| (pos == buf@.len() && e matches DecodeError::UnexpectedEof)
                    ||| (pos < buf@.len() && !is_known_control_id(buf@[pos as int]) && buf@[pos as int] < 0x80 && (e matches DecodeError::UnknownId(b) && b == buf@[pos as int]))
                    ||| (pos < buf@.len() && is_known_control_id(buf@[pos as int])
                        && packet_decode_err(buf@, pos as int, e))
                },
            },
    {
        if pos >= buf.len() {
            return Err(DecodeError::UnexpectedEof);
        }
        let id = buf[pos];
        if id == ID_CONNECTED_PING || id == ID_UNCONNECTED_PING || id
            == ID_UNCONNECTED_PING_OPEN_CONNECTIONS || id == ID_CONNECTED_PONG || id
            == ID_OPEN_CONNECTION_REQUEST_1 || id == ID_OPEN_CONNECTION_REPLY_1 || id
            == ID_OPEN_CONNECTION_REQUEST_2 || id == ID_OPEN_CONNECTION_REPLY_2 || id
            == ID_CONNECTION_REQUEST {
            RaknetPacket::decode_lower(buf, pos)
        } else if id == ID_CONNECTION_REQUEST_ACCEPTED || id == ID_CONNECTION_REQUEST_FAILED || id
            == ID_ALREADY_CONNECTED || id == ID_NEW_INCOMING_CONNECTION || id
            == ID_DISCONNECTION_NOTIFICATION || id == ID_INCOMPATIBLE_PROTOCOL_VERSION || id
            == ID_UNCONNECTED_PONG {
            RaknetPacket::decode_upper(buf, pos)
        } else if id >= 0x80 {
            let p = pos + 1;
            let n = buf.len() - p;
            let (payload, end) = match read_bytes(buf, p, n) {
                Ok(x) => x,
                Err(_) => {
                    proof {
                        assert(false);
                    }
                    (Vec::new(), p)
                },
            };
            Ok((RaknetPacket::UserData { id, payload }, end))
        } else {
            Err(DecodeError::UnknownId(id))
        }
    }
}
} // verus!
