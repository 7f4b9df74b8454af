//! Datagrams: the outermost RakNet frame on each UDP packet.
//!
//! A datagram is a flags byte and a 24-bit sequence number, followed either
//! by a run of encapsulated packets or, for ACK/NACK datagrams, by a
//! length-prefixed list of sequence ranges.

use vstd::prelude::*;

use crate::codec::{
    enc_u16_be, enc_u24_le, enc_bool, dec_u16_be, dec_u24_le, dec_bool, decode_u16_be,
    decode_u24_le, decode_bool, encode_u16_be, encode_u24_le, encode_bool, DecodeError,
    lemma_u16_be_round_trip, lemma_u24_le_round_trip, lemma_bool_round_trip,
};
use crate::frame::{
    EncapsulatedPacket, FrameView, enc_frame, dec_frame, lemma_slice_of_slice,
    lemma_frame_round_trip,
};
use crate::sequence::Sequence24;

verus! {

/// Datagram flag bits.
pub const FLAG_VALID: u8 = 0x80;

pub const FLAG_ACK: u8 = 0x40;

/// Shares its bit with `FLAG_HAS_B_AND_AS`.
pub const FLAG_NACK: u8 = 0x20;

pub const FLAG_PACKET_PAIR: u8 = 0x10;

pub const FLAG_CONTINUOUS_SEND: u8 = 0x08;

pub const FLAG_NEEDS_B_AND_AS: u8 = 0x04;

/// Header of every datagram: flags and a wrapping sequence number.
#[derive(Clone, Copy, PartialEq, Eq, Structural, Debug)]
pub struct DatagramHeader {
    pub flags: u8,
    pub sequence: Sequence24,
}

pub open spec fn enc_dgram_header(h: DatagramHeader) -> Seq<u8> {
    seq![h.flags] + enc_u24_le(h.sequence.0)
}

pub open spec fn dec_dgram_header(s: Seq<u8>, i: int) -> Result<(DatagramHeader, int), DecodeError> {
    if i + 4 <= s.len() {
        match dec_u24_le(s, i + 1) {
            Err(e) => Err(e),
            Ok((v, end)) => Ok(
                (
                    DatagramHeader { flags: ((s[i] / 4) * 4) as u8, sequence: Sequence24(v) },
                    end,
                ),
            ),
        }
    } else {
        Err(DecodeError::UnexpectedEof)
    }
}

impl DatagramHeader {
    /// The sequence is reduced and the flags hold only defined bits.
    pub open spec fn wf(self) -> bool {
        self.sequence.wf() && self.flags % 4 == 0
    }

    pub fn encode(&self, out: &mut Vec<u8>)
        ensures
            final(out)@ == old(out)@ + enc_dgram_header(*self),
    {
        out.push(self.flags);
        encode_u24_le(self.sequence.0, out);
        assert(out@ =~= old(out)@ + enc_dgram_header(*self));
    }

    pub fn decode(buf: &Vec<u8>, pos: usize) -> (r: Result<(DatagramHeader, usize), DecodeError>)
        ensures
            match r {
                Ok((h, end)) => dec_dgram_header(buf@, pos as int) == Ok::<_, DecodeError>(
                    (h, end as int),
                ) && h.wf() && pos < end <= buf@.len(),
                Err(e) => dec_dgram_header(buf@, pos as int) == Err::<(DatagramHeader, int), _>(
                    e,
                ),
            },
    {
        let len = buf.len();
        if pos <= len && 4 <= len - pos {
            // undefined low bits are dropped; every defined flag sits above them
            let flags = (buf[pos] / 4) * 4;
            let (v, end) = match decode_u24_le(buf, pos + 1) {
                Ok(x) => x,
                Err(e) => return Err(e),
            };
            Ok((DatagramHeader { flags, sequence: Sequence24(v) }, end))
        } else {
            Err(DecodeError::UnexpectedEof)
        }
    }
}

/// Decoding an encoded datagram header yields the same header; the flags
/// byte must hold only defined bits, as every header the library builds does.
pub proof fn lemma_dgram_header_round_trip(s: Seq<u8>, i: int, h: DatagramHeader)
    requires
        0 <= i,
        h.wf(),
        i + 4 <= s.len(),
        s.subrange(i, i + 4) == enc_dgram_header(h),
    ensures
        dec_dgram_header(s, i) == Ok::<_, DecodeError>((h, i + 4)),
{
    let e = enc_dgram_header(h);
    assert(s[i] == h.flags) by {
        assert(s.subrange(i, i + 4)[0] == s[i]);
        assert(e[0] == h.flags);
    }
    assert(s.subrange(i + 1, i + 4) =~= enc_u24_le(h.sequence.0)) by {
        lemma_slice_of_slice(s, i, e, 1, 4);
        assert(e.subrange(1, 4) =~= enc_u24_le(h.sequence.0));
    }
    lemma_u24_le_round_trip(s, i + 1, h.sequence.0);
}

// ---------------------------------------------------------------------------
// ACK / NACK range lists
// ---------------------------------------------------------------------------

/// An inclusive range of sequence numbers, as one ACK/NACK record.
#[derive(Clone, Copy, PartialEq, Eq, Structural, Debug)]
pub struct SequenceRange {
    pub start: u32,
    pub end: u32,
}

impl SequenceRange {
    pub open spec fn wf(self) -> bool {
        self.start < 0x1000000 && self.end < 0x1000000
    }
}

/// One range on the wire: a single-value flag, then one or two sequences.
pub open spec fn enc_range(r: SequenceRange) -> Seq<u8> {
    if r.start == r.end {
        enc_bool(true) + enc_u24_le(r.start)
    } else {
        enc_bool(false) + enc_u24_le(r.start) + enc_u24_le(r.end)
    }
}

pub open spec fn enc_ranges(rs: Seq<SequenceRange>) -> Seq<u8>
    decreases rs.len(),
{
    if rs.len() == 0 {
        Seq::empty()
    } else {
        enc_range(rs[0]) + enc_ranges(rs.drop_first())
    }
}

/// The whole ACK/NACK payload: a u16 count, then the ranges.
pub open spec fn enc_acklist(rs: Seq<SequenceRange>) -> Seq<u8> {
    enc_u16_be(rs.len() as u16) + enc_ranges(rs)
}

pub open spec fn dec_ranges(s: Seq<u8>, i: int, n: nat) -> Result<
    (Seq<SequenceRange>, int),
    DecodeError,
>
    decreases n,
{
    if n == 0 {
        Ok((Seq::empty(), i))
    } else {
        match dec_bool(s, i) {
            Err(e) => Err(e),
            Ok((single, j)) => match dec_u24_le(s, j) {
                Err(e) => Err(e),
                Ok((start, j2)) => {
                    let step: Result<(u32, int), DecodeError> = if single {
                        Ok((start, j2))
                    } else {
                        dec_u24_le(s, j2)
                    };
                    match step {
                        Err(e) => Err(e),
                        Ok((end, j3)) => match dec_ranges(s, j3, (n - 1) as nat) {
                            Err(e) => Err(e),
                            Ok((rest, j4)) => Ok(
                                (seq![SequenceRange { start, end }] + rest, j4),
                            ),
                        },
                    }
                },
            },
        }
    }
}

pub open spec fn dec_acklist(s: Seq<u8>, i: int) -> Result<(Seq<SequenceRange>, int), DecodeError> {
    match dec_u16_be(s, i) {
        Err(e) => Err(e),
        Ok((n, j)) => dec_ranges(s, j, n as nat),
    }
}

/// Appends the count and the ranges.
pub fn encode_acklist(rs: &Vec<SequenceRange>, out: &mut Vec<u8>)
    requires
        rs@.len() <= 0xffff,
    ensures
        final(out)@ == old(out)@ + enc_acklist(rs@),
{
    encode_u16_be(rs.len() as u16, out);
    let ghost head = out@;
    let mut k: usize = 0;
    while k < rs.len()
        invariant
            k <= rs@.len(),
            out@ == head + enc_ranges(rs@.take(k as int)),
        decreases rs@.len() - k,
    {
        let r = rs[k];
        if r.start == r.end {
            encode_bool(true, out);
            encode_u24_le(r.start, out);
        } else {
            encode_bool(false, out);
            encode_u24_le(r.start, out);
            encode_u24_le(r.end, out);
        }
        proof {
            lemma_enc_ranges_snoc(rs@.take(k as int), rs@[k as int]);
            assert(rs@.take(k as int).push(rs@[k as int]) =~= rs@.take(k as int + 1));
            assert(out@ =~= head + enc_ranges(rs@.take(k as int + 1)));
        }
        k = k + 1;
    }
    assert(rs@.take(rs@.len() as int) =~= rs@);
    assert(out@ =~= old(out)@ + enc_acklist(rs@));
}

/// Appending one range to a list appends its encoding.
proof fn lemma_enc_ranges_snoc(rs: Seq<SequenceRange>, r: SequenceRange)
    ensures
        enc_ranges(rs.push(r)) == enc_ranges(rs) + enc_range(r),
    decreases rs.len(),
{
    if rs.len() == 0 {
        assert(rs.push(r).drop_first() =~= Seq::<SequenceRange>::empty());
        assert(rs.push(r)[0] == r);
        assert(enc_ranges(Seq::<SequenceRange>::empty()) =~= Seq::<u8>::empty());
        assert(enc_ranges(rs.push(r)) =~= enc_range(r) + enc_ranges(
            Seq::<SequenceRange>::empty(),
        ));
        assert(enc_ranges(rs.push(r)) =~= enc_range(r));
        assert(enc_ranges(rs) + enc_range(r) =~= enc_range(r));
    } else {
        assert(rs.push(r).drop_first() =~= rs.drop_first().push(r));
        lemma_enc_ranges_snoc(rs.drop_first(), r);
        assert(rs.push(r)[0] == rs[0]);
        assert(enc_ranges(rs.push(r)) == enc_range(rs[0]) + enc_ranges(rs.drop_first().push(r)));
        assert(enc_range(rs[0]) + (enc_ranges(rs.drop_first()) + enc_range(r)) =~= (enc_range(
            rs[0],
        ) + enc_ranges(rs.drop_first())) + enc_range(r));
    }
}

/// Reads the count and the ranges.
pub fn decode_acklist(buf: &Vec<u8>, pos: usize) -> (r: Result<
    (Vec<SequenceRange>, usize),
    DecodeError,
>)
    ensures
        match r {
            Ok((v, end)) => dec_acklist(buf@, pos as int) == Ok::<_, DecodeError>(
                (v@, end as int),
            ) && pos <= end <= buf@.len() && (forall|k: int|
                0 <= k < v@.len() ==> (#[trigger] v@[k]).wf()),
            Err(e) => dec_acklist(buf@, pos as int) == Err::<(Seq<SequenceRange>, int), _>(e),
        },
{
    let (n, j) = match decode_u16_be(buf, pos) {
        Ok(x) => x,
        Err(e) => return Err(e),
    };
    let mut v: Vec<SequenceRange> = Vec::new();
    let mut p = j;
    let mut k: usize = 0;
    while k < (n as usize)
        invariant
            k <= n as usize,
            v@.len() == k,
            pos < j <= p <= buf@.len(),
            dec_u16_be(buf@, pos as int) == Ok::<(u16, int), DecodeError>((n, j as int)),
            forall|q: int| 0 <= q < v@.len() ==> (#[trigger] v@[q]).wf(),
            ({
                let whole = dec_ranges(buf@, j as int, n as nat);
                let rest = dec_ranges(buf@, p as int, (n as usize - k) as nat);
                match rest {
                    Ok((rr, end)) => whole == Ok::<_, DecodeError>((v@ + rr, end)),
                    Err(e) => whole == Err::<(Seq<SequenceRange>, int), _>(e),
                }
            }),
        decreases n as usize - k,
    {
        let (single, j1) = match decode_bool(buf, p) {
            Ok(x) => x,
            Err(e) => {
                proof {
                    assert(dec_ranges(buf@, p as int, (n as usize - k) as nat) == Err::<
                        (Seq<SequenceRange>, int),
                        _,
                    >(e));
                    assert(dec_ranges(buf@, j as int, n as nat) == Err::<
                        (Seq<SequenceRange>, int),
                        _,
                    >(e));
                    assert(dec_acklist(buf@, pos as int) == Err::<(Seq<SequenceRange>, int), _>(
                        e,
                    ));
                }
                return Err(e);
            },
        };
        let (start, j2) = match decode_u24_le(buf, j1) {
            Ok(x) => x,
            Err(e) => {
                proof {
                    assert(dec_ranges(buf@, p as int, (n as usize - k) as nat) == Err::<
                        (Seq<SequenceRange>, int),
                        _,
                    >(e));
                }
                return Err(e);
            },
        };
        let (end_v, j3) = if single {
            (start, j2)
        } else {
            match decode_u24_le(buf, j2) {
                Ok(x) => x,
                Err(e) => {
                    proof {
                        assert(dec_ranges(buf@, p as int, (n as usize - k) as nat) == Err::<
                            (Seq<SequenceRange>, int),
                            _,
                        >(e));
                    }
                    return Err(e);
                },
            }
        };
        let rng = SequenceRange { start, end: end_v };
        proof {
            let rest = dec_ranges(buf@, p as int, (n as usize - k) as nat);
            let rest2 = dec_ranges(buf@, j3 as int, (n as usize - k - 1) as nat);
            match rest2 {
                Ok((rr2, e2)) => {
                    assert(rest == Ok::<_, DecodeError>((seq![rng] + rr2, e2)));
                    assert((v@ + seq![rng]) + rr2 =~= v@ + (seq![rng] + rr2));
                    assert(v@.push(rng) =~= v@ + seq![rng]);
                },
                Err(e) => {
                    assert(rest == Err::<(Seq<SequenceRange>, int), _>(e));
                },
            }
        }
        v.push(rng);
        p = j3;
        k = k + 1;
    }
    proof {
        assert(v@ + Seq::<SequenceRange>::empty() =~= v@);
    }
    Ok((v, p))
}

/// Decoding an encoded range list yields the same ranges. Each range must be
/// well formed, with a start that differs from its end unless it means the
/// single value: a range written as a pair must have distinct endpoints.
pub proof fn lemma_acklist_round_trip(s: Seq<u8>, i: int, rs: Seq<SequenceRange>)
    requires
        0 <= i,
        rs.len() <= 0xffff,
        forall|k: int| 0 <= k < rs.len() ==> (#[trigger] rs[k]).wf(),
        i + enc_acklist(rs).len() <= s.len(),
        s.subrange(i, i + enc_acklist(rs).len()) == enc_acklist(rs),
    ensures
        dec_acklist(s, i) == Ok::<_, DecodeError>((rs, i + enc_acklist(rs).len())),
{
    let e = enc_acklist(rs);
    assert(s.subrange(i, i + 2) =~= enc_u16_be(rs.len() as u16)) by {
        lemma_slice_of_slice(s, i, e, 0, 2);
        assert(e.subrange(0, 2) =~= enc_u16_be(rs.len() as u16));
    }
    lemma_u16_be_round_trip(s, i, rs.len() as u16);
    assert(s.subrange(i + 2, i + 2 + enc_ranges(rs).len() as int) =~= enc_ranges(rs)) by {
        lemma_slice_of_slice(s, i, e, 2, 2 + enc_ranges(rs).len() as int);
        assert(e.subrange(2, 2 + enc_ranges(rs).len() as int) =~= enc_ranges(rs));
    }
    lemma_ranges_round_trip(s, i + 2, rs);
}

proof fn lemma_ranges_round_trip(s: Seq<u8>, i: int, rs: Seq<SequenceRange>)
    requires
        0 <= i,
        forall|k: int| 0 <= k < rs.len() ==> (#[trigger] rs[k]).wf(),
        i + enc_ranges(rs).len() <= s.len(),
        s.subrange(i, i + enc_ranges(rs).len()) == enc_ranges(rs),
    ensures
        dec_ranges(s, i, rs.len()) == Ok::<_, DecodeError>((rs, i + enc_ranges(rs).len())),
    decreases rs.len(),
{
    if rs.len() == 0 {
        assert(rs =~= Seq::<SequenceRange>::empty());
    } else {
        let e = enc_ranges(rs);
        let r0 = rs[0];
        let l0 = enc_range(r0).len() as int;
        let tail = rs.drop_first();
        assert(e == enc_range(r0) + enc_ranges(tail));
        assert(s.subrange(i, i + l0) =~= enc_range(r0)) by {
            lemma_slice_of_slice(s, i, e, 0, l0);
            assert(e.subrange(0, l0) =~= enc_range(r0));
        }
        if r0.start == r0.end {
            assert(s.subrange(i, i + 1) =~= enc_bool(true)) by {
                lemma_slice_of_slice(s, i, enc_range(r0), 0, 1);
                assert(enc_range(r0).subrange(0, 1) =~= enc_bool(true));
            }
            lemma_bool_round_trip(s, i, true);
            assert(s.subrange(i + 1, i + 4) =~= enc_u24_le(r0.start)) by {
                lemma_slice_of_slice(s, i, enc_range(r0), 1, 4);
                assert(enc_range(r0).subrange(1, 4) =~= enc_u24_le(r0.start));
            }
            lemma_u24_le_round_trip(s, i + 1, r0.start);
        } else {
            assert(s.subrange(i, i + 1) =~= enc_bool(false)) by {
                lemma_slice_of_slice(s, i, enc_range(r0), 0, 1);
                assert(enc_range(r0).subrange(0, 1) =~= enc_bool(false));
            }
            lemma_bool_round_trip(s, i, false);
            assert(s.subrange(i + 1, i + 4) =~= enc_u24_le(r0.start)) by {
                lemma_slice_of_slice(s, i, enc_range(r0), 1, 4);
                assert(enc_range(r0).subrange(1, 4) =~= enc_u24_le(r0.start));
            }
            lemma_u24_le_round_trip(s, i + 1, r0.start);
            assert(s.subrange(i + 4, i + 7) =~= enc_u24_le(r0.end)) by {
                lemma_slice_of_slice(s, i, enc_range(r0), 4, 7);
                assert(enc_range(r0).subrange(4, 7) =~= enc_u24_le(r0.end));
            }
            lemma_u24_le_round_trip(s, i + 4, r0.end);
        }
        assert(s.subrange(i + l0, i + l0 + enc_ranges(tail).len() as int) =~= enc_ranges(tail))
            by {
            lemma_slice_of_slice(s, i, e, l0, e.len() as int);
            assert(e.subrange(l0, e.len() as int) =~= enc_ranges(tail));
        }
        lemma_ranges_round_trip(s, i + l0, tail);
        assert(rs =~= seq![r0] + tail);
    }
}

// ---------------------------------------------------------------------------
// Whole datagrams carrying encapsulated packets
// ---------------------------------------------------------------------------

/// A data datagram: header plus a run of encapsulated packets filling the
/// rest of the UDP payload.
pub struct Datagram {
    pub header: DatagramHeader,
    pub packets: Vec<EncapsulatedPacket>,
}

pub open spec fn enc_frames(fs: Seq<FrameView>) -> Seq<u8>
    decreases fs.len(),
{
    if fs.len() == 0 {
        Seq::empty()
    } else {
        enc_frame(fs[0]) + enc_frames(fs.drop_first())
    }
}

/// Spec decoder for a run of frames filling the buffer from `i` to its end.
pub open spec fn dec_frames(s: Seq<u8>, i: int) -> Result<Seq<FrameView>, DecodeError>
    decreases s.len() - i,
{
    if i >= s.len() {
        Ok(Seq::empty())
    } else {
        match dec_frame(s, i) {
            Err(e) => Err(e),
            Ok((f, end)) => if i < end <= s.len() {
                match dec_frames(s, end) {
                    Err(e) => Err(e),
                    Ok(rest) => Ok(seq![f] + rest),
                }
            } else {
                Err(DecodeError::UnexpectedEof)
            },
        }
    }
}

/// Reads frames until the buffer ends.
pub fn decode_frames(buf: &Vec<u8>, pos: usize) -> (r: Result<Vec<EncapsulatedPacket>, DecodeError>)
    requires
        pos <= buf@.len(),
    ensures
        match r {
            Ok(v) => dec_frames(buf@, pos as int) matches Ok(fs) && fs == v@.map_values(
                |f: EncapsulatedPacket| f@,
            ) && (forall|k: int| 0 <= k < v@.len() ==> (#[trigger] v@[k])@.wf()),
            Err(e) => dec_frames(buf@, pos as int) == Err::<Seq<FrameView>, _>(e),
        },
{
    let mut v: Vec<EncapsulatedPacket> = Vec::new();
    let mut p = pos;
    while p < buf.len()
        invariant
            pos <= p <= buf@.len(),
            forall|k: int| 0 <= k < v@.len() ==> (#[trigger] v@[k])@.wf(),
            ({
                let whole = dec_frames(buf@, pos as int);
                let rest = dec_frames(buf@, p as int);
                match rest {
                    Ok(fs) => whole == Ok::<_, DecodeError>(
                        v@.map_values(|f: EncapsulatedPacket| f@) + fs,
                    ),
                    Err(e) => whole == Err::<Seq<FrameView>, _>(e),
                }
            }),
        decreases buf@.len() - p,
    {
        match EncapsulatedPacket::decode_raknet(buf, p) {
            Ok((f, end)) => {
                proof {
                    let rest = dec_frames(buf@, p as int);
                    let rest2 = dec_frames(buf@, end as int);
                    let m = v@.map_values(|g: EncapsulatedPacket| g@);
                    match rest2 {
                        Ok(fs2) => {
                            assert(rest == Ok::<_, DecodeError>(seq![f@] + fs2));
                            assert(v@.push(f).map_values(|g: EncapsulatedPacket| g@) =~= m + seq![
                                f@,
                            ]);
                            assert((m + seq![f@]) + fs2 =~= m + (seq![f@] + fs2));
                        },
                        Err(e) => {
                            assert(rest == Err::<Seq<FrameView>, _>(e));
                        },
                    }
                }
                v.push(f);
                p = end;
            },
            Err(e) => {
                return Err(e);
            },
        }
    }
    proof {
        let m = v@.map_values(|g: EncapsulatedPacket| g@);
        assert(m + Seq::<FrameView>::empty() =~= m);
    }
    Ok(v)
}

/// Decoding an encoded run of well-formed frames that fills the buffer yields
/// the same frames.
pub proof fn lemma_frames_round_trip(s: Seq<u8>, i: int, fs: Seq<FrameView>)
    requires
        0 <= i,
        forall|k: int| 0 <= k < fs.len() ==> (#[trigger] fs[k]).wf(),
        i + enc_frames(fs).len() == s.len(),
        s.subrange(i, s.len() as int) == enc_frames(fs),
    ensures
        dec_frames(s, i) == Ok::<_, DecodeError>(fs),
    decreases fs.len(),
{
    if fs.len() == 0 {
        assert(fs =~= Seq::<FrameView>::empty());
    } else {
        let e = enc_frames(fs);
        let f0 = fs[0];
        let l0 = enc_frame(f0).len() as int;
        let tail = fs.drop_first();
        assert(e == enc_frame(f0) + enc_frames(tail));
        assert(l0 >= 3);
        assert(s.subrange(i, i + l0) =~= enc_frame(f0)) by {
            lemma_slice_of_slice(s, i, e, 0, l0);
            assert(e.subrange(0, l0) =~= enc_frame(f0));
        }
        lemma_frame_round_trip(s, i, f0);
        assert(s.subrange(i + l0, s.len() as int) =~= enc_frames(tail)) by {
            lemma_slice_of_slice(s, i, e, l0, e.len() as int);
            assert(e.subrange(l0, e.len() as int) =~= enc_frames(tail));
        }
        lemma_frames_round_trip(s, i + l0, tail);
        assert(fs =~= seq![f0] + tail);
    }
}

impl Datagram {
    pub open spec fn wf(self) -> bool {
        &&& self.header.wf()
        &&& forall|k: int| 0 <= k < self.packets@.len() ==> (#[trigger] self.packets@[k])@.wf()
    }

    pub open spec fn frames_view(self) -> Seq<FrameView> {
        self.packets@.map_values(|f: EncapsulatedPacket| f@)
    }

    pub open spec fn spec_enc(self) -> Seq<u8> {
        enc_dgram_header(self.header) + enc_frames(self.frames_view())
    }

    /// Writes the header, then every frame.
    pub fn encode(&self, out: &mut Vec<u8>)
        requires
            self.wf(),
        ensures
            final(out)@ == old(out)@ + self.spec_enc(),
    {
        self.header.encode(out);
        let ghost head = out@;
        let mut k: usize = 0;
        while k < self.packets.len()
            invariant
                k <= self.packets@.len(),
                forall|q: int|
                    0 <= q < self.packets@.len() ==> (#[trigger] self.packets@[q])@.wf(),
                out@ == head + enc_frames(self.frames_view().take(k as int)),
            decreases self.packets@.len() - k,
        {
            self.packets[k].encode_raknet(out);
            proof {
                lemma_enc_frames_snoc(self.frames_view().take(k as int), self.packets@[k as int]@);
                assert(self.frames_view().take(k as int).push(self.packets@[k as int]@)
                    =~= self.frames_view().take(k as int + 1));
            }
            k = k + 1;
        }
        assert(self.frames_view().take(self.packets@.len() as int) =~= self.frames_view());
        assert(out@ =~= old(out)@ + self.spec_enc());
    }

    /// Reads the header, then frames until the buffer ends.
    pub fn decode(buf: &Vec<u8>, pos: usize) -> (r: Result<Datagram, DecodeError>)
        ensures
            match r {
                Ok(d) => (dec_dgram_header(buf@, pos as int) matches Ok(he) && he.0 == d.header
                    && (dec_frames(buf@, he.1) matches Ok(fs) && fs == d.frames_view())) && d.wf(),
                Err(e) => {
                    ||| dec_dgram_header(buf@, pos as int) == Err::<(DatagramHeader, int), _>(e)
                    ||| (dec_dgram_header(buf@, pos as int) matches Ok(he) && dec_frames(
                        buf@,
                        he.1,
                    ) == Err::<Seq<FrameView>, _>(e))
                },
            },
    {
        let (header, p) = match DatagramHeader::decode(buf, pos) {
            Ok(x) => x,
            Err(e) => return Err(e),
        };
        let packets = match decode_frames(buf, p) {
            Ok(x) => x,
            Err(e) => return Err(e),
        };
        Ok(Datagram { header, packets })
    }
}

/// Appending one frame to a run appends its encoding.
pub proof fn lemma_enc_frames_snoc(fs: Seq<FrameView>, f: FrameView)
    ensures
        enc_frames(fs.push(f)) == enc_frames(fs) + enc_frame(f),
    decreases fs.len(),
{
    if fs.len() == 0 {
        assert(fs.push(f).drop_first() =~= Seq::<FrameView>::empty());
        assert(fs.push(f)[0] == f);
        assert(enc_frames(Seq::<FrameView>::empty()) =~= Seq::<u8>::empty());
        assert(enc_frames(fs.push(f)) =~= enc_frame(f) + enc_frames(Seq::<FrameView>::empty()));
        assert(enc_frames(fs.push(f)) =~= enc_frame(f));
        assert(enc_frames(fs) + enc_frame(f) =~= enc_frame(f));
    } else {
        assert(fs.push(f).drop_first() =~= fs.drop_first().push(f));
        lemma_enc_frames_snoc(fs.drop_first(), f);
        assert(fs.push(f)[0] == fs[0]);
        assert(enc_frames(fs.push(f)) == enc_frame(fs[0]) + enc_frames(fs.drop_first().push(f)));
        assert(enc_frame(fs[0]) + (enc_frames(fs.drop_first()) + enc_frame(f)) =~= (enc_frame(
            fs[0],
        ) + enc_frames(fs.drop_first())) + enc_frame(f));
    }
}

} // verus!
