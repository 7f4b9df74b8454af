//! Encapsulated packets: the framed message units carried inside datagrams.
//!
//! Each frame carries a reliability class, optional reliable / sequence /
//! ordering indices, optional split metadata, and a payload whose length is
//! written in bits.

use vstd::prelude::*;

use crate::codec::{
    enc_u16_be, enc_u24_le, enc_u32_be, dec_u8, dec_u16_be, dec_u24_le, dec_u32_be, decode_u16_be,
    decode_u24_le, decode_u32_be, decode_u8, encode_u16_be, encode_u24_le, encode_u32_be,
    read_bytes, append_bytes, DecodeError, lemma_u16_be_round_trip, lemma_u24_le_round_trip,
    lemma_u32_be_round_trip,
};
use crate::reliability::{
    Reliability, rel_to_u8, rel_from_u8, spec_is_ordered, spec_is_reliable, spec_is_sequenced,
};
use crate::sequence::Sequence24;

verus! {

/// Split (fragmentation) metadata: this frame is fragment `index` of `count`
/// fragments sharing the id.
#[derive(Clone, Copy, PartialEq, Eq, Structural, Debug)]
pub struct SplitInfo {
    pub count: u32,
    pub id: u16,
    pub index: u32,
}

/// One encapsulated packet.
pub struct EncapsulatedPacket {
    pub reliability: Reliability,
    pub is_split: bool,
    pub needs_bas: bool,
    pub bit_length: u16,
    pub reliable_index: Option<Sequence24>,
    pub sequence_index: Option<Sequence24>,
    pub ordering_index: Option<Sequence24>,
    pub ordering_channel: Option<u8>,
    pub split: Option<SplitInfo>,
    pub payload: Vec<u8>,
}

/// The mathematical image of an encapsulated packet.
pub ghost struct FrameView {
    pub reliability: Reliability,
    pub is_split: bool,
    pub needs_bas: bool,
    pub bit_length: u16,
    pub reliable_index: Option<u32>,
    pub sequence_index: Option<u32>,
    pub ordering_index: Option<u32>,
    pub ordering_channel: Option<u8>,
    pub split: Option<SplitInfo>,
    pub payload: Seq<u8>,
}

impl View for EncapsulatedPacket {
    type V = FrameView;

    open spec fn view(&self) -> FrameView {
        FrameView {
            reliability: self.reliability,
            is_split: self.is_split,
            needs_bas: self.needs_bas,
            bit_length: self.bit_length,
            reliable_index: match self.reliable_index {
                Some(x) => Some(x.0),
                None => None,
            },
            sequence_index: match self.sequence_index {
                Some(x) => Some(x.0),
                None => None,
            },
            ordering_index: match self.ordering_index {
                Some(x) => Some(x.0),
                None => None,
            },
            ordering_channel: self.ordering_channel,
            split: self.split,
            payload: self.payload@,
        }
    }
}

/// Payload length in bytes of a frame with the given bit length.
pub open spec fn spec_payload_len(bit_length: u16) -> int {
    (bit_length + 7) / 8
}

impl FrameView {
    /// Well-formedness: the optional fields are present exactly when the
    /// reliability class calls for them, indices are 24-bit values, split
    /// metadata accompanies the split flag, and the payload has the byte
    /// length that the bit length announces.
    pub open spec fn wf(self) -> bool {
        &&& (self.reliable_index is Some <==> spec_is_reliable(self.reliability))
        &&& (self.sequence_index is Some <==> spec_is_sequenced(self.reliability))
        &&& (self.ordering_index is Some <==> (spec_is_ordered(self.reliability)
            || spec_is_sequenced(self.reliability)))
        &&& (self.ordering_channel is Some <==> (spec_is_ordered(self.reliability)
            || spec_is_sequenced(self.reliability)))
        &&& (self.split is Some <==> self.is_split)
        &&& (self.reliable_index matches Some(x) ==> x < 0x1000000)
        &&& (self.sequence_index matches Some(x) ==> x < 0x1000000)
        &&& (self.ordering_index matches Some(x) ==> x < 0x1000000)
        &&& self.payload.len() == spec_payload_len(self.bit_length)
    }

    pub open spec fn flags_byte(self) -> u8 {
        (rel_to_u8(self.reliability) * 32 + (if self.is_split {
            16int
        } else {
            0int
        }) + (if self.needs_bas {
            4int
        } else {
            0int
        })) as u8
    }

    /// The extra index bytes between the bit length and the payload.
    pub open spec fn enc_indices(self) -> Seq<u8> {
        (if spec_is_reliable(self.reliability) {
            enc_u24_le(self.reliable_index->Some_0)
        } else {
            Seq::empty()
        }) + (if spec_is_sequenced(self.reliability) {
            enc_u24_le(self.sequence_index->Some_0)
        } else {
            Seq::empty()
        }) + (if spec_is_ordered(self.reliability) || spec_is_sequenced(self.reliability) {
            enc_u24_le(self.ordering_index->Some_0) + seq![self.ordering_channel->Some_0]
        } else {
            Seq::empty()
        }) + (if self.is_split {
            enc_u32_be(self.split->Some_0.count) + enc_u16_be(self.split->Some_0.id) + enc_u32_be(
                self.split->Some_0.index,
            )
        } else {
            Seq::empty()
        })
    }
}

pub open spec fn enc_frame(f: FrameView) -> Seq<u8> {
    seq![f.flags_byte()] + enc_u16_be(f.bit_length) + f.enc_indices() + f.payload
}

/// Spec decoder for one frame starting at `i`.
pub open spec fn dec_frame(s: Seq<u8>, i: int) -> Result<(FrameView, int), DecodeError> {
    match dec_u8(s, i) {
        Err(e) => Err(e),
        Ok((flags, i1)) => match rel_from_u8(flags / 32) {
            None => Err(DecodeError::UnknownReliability(flags / 32)),
            Some(rel) => match dec_u16_be(s, i1) {
                Err(e) => Err(e),
                Ok((bl, i2)) => {
                    let is_split = (flags / 16) % 2 == 1;
                    let needs_bas = (flags / 4) % 2 == 1;
                    let step_r: Result<(Option<u32>, int), DecodeError> = if spec_is_reliable(
                        rel,
                    ) {
                        match dec_u24_le(s, i2) {
                            Err(e) => Err(e),
                            Ok((x, j)) => Ok((Some(x), j)),
                        }
                    } else {
                        Ok((None, i2))
                    };
                    match step_r {
                        Err(e) => Err(e),
                        Ok((ri, i3)) => {
                            let step_s: Result<(Option<u32>, int), DecodeError> = if
                            spec_is_sequenced(rel) {
                                match dec_u24_le(s, i3) {
                                    Err(e) => Err(e),
                                    Ok((x, j)) => Ok((Some(x), j)),
                                }
                            } else {
                                Ok((None, i3))
                            };
                            match step_s {
                                Err(e) => Err(e),
                                Ok((si, i4)) => {
                                    let step_o: Result<
                                        (Option<u32>, Option<u8>, int),
                                        DecodeError,
                                    > = if spec_is_ordered(rel) || spec_is_sequenced(rel) {
                                        match dec_u24_le(s, i4) {
                                            Err(e) => Err(e),
                                            Ok((x, j)) => match dec_u8(s, j) {
                                                Err(e) => Err(e),
                                                Ok((ch, j2)) => Ok((Some(x), Some(ch), j2)),
                                            },
                                        }
                                    } else {
                                        Ok((None, None, i4))
                                    };
                                    match step_o {
                                        Err(e) => Err(e),
                                        Ok((oi, ch, i5)) => {
                                            let step_sp: Result<
                                                (Option<SplitInfo>, int),
                                                DecodeError,
                                            > = if is_split {
                                                match dec_u32_be(s, i5) {
                                                    Err(e) => Err(e),
                                                    Ok((count, j)) => match dec_u16_be(s, j) {
                                                        Err(e) => Err(e),
                                                        Ok((id, j2)) => match dec_u32_be(s, j2) {
                                                            Err(e) => Err(e),
                                                            Ok((index, j3)) => Ok(
                                                                (
                                                                    Some(
                                                                        SplitInfo {
                                                                            count,
                                                                            id,
                                                                            index,
                                                                        },
                                                                    ),
                                                                    j3,
                                                                ),
                                                            ),
                                                        },
                                                    },
                                                }
                                            } else {
                                                Ok((None, i5))
                                            };
                                            match step_sp {
                                                Err(e) => Err(e),
                                                Ok((sp, i6)) => {
                                                    let plen = spec_payload_len(bl);
                                                    if i6 + plen <= s.len() {
                                                        Ok(
                                                            (
                                                                FrameView {
                                                                    reliability: rel,
                                                                    is_split,
                                                                    needs_bas,
                                                                    bit_length: bl,
                                                                    reliable_index: ri,
                                                                    sequence_index: si,
                                                                    ordering_index: oi,
                                                                    ordering_channel: ch,
                                                                    split: sp,
                                                                    payload: s.subrange(
                                                                        i6,
                                                                        i6 + plen,
                                                                    ),
                                                                },
                                                                i6 + plen,
                                                            ),
                                                        )
                                                    } else {
                                                        Err(DecodeError::UnexpectedEof)
                                                    }
                                                },
                                            }
                                        },
                                    }
                                },
                            }
                        },
                    }
                },
            },
        },
    }
}

/// Bytes `[a, b)` of a sequence embedded in `s` at `i` are bytes `[i+a, i+b)`
/// of `s`.
pub proof fn lemma_slice_of_slice(s: Seq<u8>, i: int, e: Seq<u8>, a: int, b: int)
    requires
        0 <= i,
        i + e.len() <= s.len(),
        s.subrange(i, i + e.len()) == e,
        0 <= a <= b <= e.len(),
    ensures
        s.subrange(i + a, i + b) == e.subrange(a, b),
{
    assert forall|k: int| 0 <= k < b - a implies s.subrange(i + a, i + b)[k] == e.subrange(a, b)[k]
        by {
        assert(s.subrange(i, i + e.len())[a + k] == s[i + (a + k)]);
        assert(s.subrange(i + a, i + b)[k] == s[(i + a) + k]);
        assert(i + (a + k) == (i + a) + k);
    }
    assert(s.subrange(i + a, i + b) =~= e.subrange(a, b));
}

impl FrameView {
    /// Byte lengths of the optional header parts.
    pub open spec fn len_r(self) -> int {
        if spec_is_reliable(self.reliability) {
            3
        } else {
            0
        }
    }

    pub open spec fn len_s(self) -> int {
        if spec_is_sequenced(self.reliability) {
            3
        } else {
            0
        }
    }

    pub open spec fn len_o(self) -> int {
        if spec_is_ordered(self.reliability) || spec_is_sequenced(self.reliability) {
            4
        } else {
            0
        }
    }

    pub open spec fn len_sp(self) -> int {
        if self.is_split {
            10
        } else {
            0
        }
    }

    pub open spec fn header_len(self) -> int {
        3 + self.len_r() + self.len_s() + self.len_o() + self.len_sp()
    }
}

/// Where an encoded well-formed frame sits in a buffer, each of its header
/// fields decodes at its own offset to the field the frame holds.
#[verifier::rlimit(100)]
proof fn lemma_frame_fields_decode(s: Seq<u8>, i: int, f: FrameView)
    requires
        0 <= i,
        f.wf(),
        i + enc_frame(f).len() <= s.len(),
        s.subrange(i, i + enc_frame(f).len()) == enc_frame(f),
    ensures
        dec_u8(s, i) == Ok::<_, DecodeError>((f.flags_byte(), i + 1)),
        f.flags_byte() / 32 == rel_to_u8(f.reliability),
        rel_from_u8(f.flags_byte() / 32) == Some(f.reliability),
        (f.flags_byte() / 16) % 2 == (if f.is_split {
            1int
        } else {
            0int
        }),
        (f.flags_byte() / 4) % 2 == (if f.needs_bas {
            1int
        } else {
            0int
        }),
        dec_u16_be(s, i + 1) == Ok::<_, DecodeError>((f.bit_length, i + 3)),
        spec_is_reliable(f.reliability) ==> dec_u24_le(s, i + 3) == Ok::<_, DecodeError>(
            (f.reliable_index->Some_0, i + 3 + 3),
        ),
        spec_is_sequenced(f.reliability) ==> dec_u24_le(s, i + 3 + f.len_r()) == Ok::<
            _,
            DecodeError,
        >((f.sequence_index->Some_0, i + 3 + f.len_r() + 3)),
        spec_is_ordered(f.reliability) || spec_is_sequenced(f.reliability) ==> dec_u24_le(
            s,
            i + 3 + f.len_r() + f.len_s(),
        ) == Ok::<_, DecodeError>((f.ordering_index->Some_0, i + 3 + f.len_r() + f.len_s() + 3))
            && dec_u8(s, i + 3 + f.len_r() + f.len_s() + 3) == Ok::<_, DecodeError>(
            (f.ordering_channel->Some_0, i + 3 + f.len_r() + f.len_s() + 4),
        ),
        f.is_split ==> {
            let ob = i + 3 + f.len_r() + f.len_s() + f.len_o();
            &&& dec_u32_be(s, ob) == Ok::<_, DecodeError>((f.split->Some_0.count, ob + 4))
            &&& dec_u16_be(s, ob + 4) == Ok::<_, DecodeError>((f.split->Some_0.id, ob + 6))
            &&& dec_u32_be(s, ob + 6) == Ok::<_, DecodeError>((f.split->Some_0.index, ob + 10))
        },
        s.subrange(i + f.header_len(), i + f.header_len() + spec_payload_len(f.bit_length))
            == f.payload,
        enc_frame(f).len() == f.header_len() + spec_payload_len(f.bit_length),
{
    let e = enc_frame(f);
    let rel = f.reliability;
    let lr: int = f.len_r();
    let ls: int = f.len_s();
    let lo: int = f.len_o();
    let lsp: int = f.len_sp();
    let plen = spec_payload_len(f.bit_length);
    assert(f.enc_indices().len() == lr + ls + lo + lsp);
    let hl = 3 + lr + ls + lo + lsp;
    assert(e.len() == hl + plen);

    // flags byte
    assert(s[i] == e[0]) by {
        assert(s.subrange(i, i + e.len())[0] == s[i]);
    }
    assert(e[0] == f.flags_byte());
    let flags = f.flags_byte();
    let rb = rel_to_u8(rel);
    assert(rb <= 6);
    assert(flags == rb * 32 + (if f.is_split {
        16int
    } else {
        0int
    }) + (if f.needs_bas {
        4int
    } else {
        0int
    }));
    assert(flags / 32 == rb);
    assert((flags / 16) % 2 == (if f.is_split {
        1int
    } else {
        0int
    }));
    assert((flags / 4) % 2 == (if f.needs_bas {
        1int
    } else {
        0int
    }));
    crate::reliability::lemma_reliability_round_trip(rel);

    // bit length
    assert(s.subrange(i + 1, i + 3) == e.subrange(1, 3)) by {
        lemma_slice_of_slice(s, i, e, 1, 3);
    }
    assert(e.subrange(1, 3) =~= enc_u16_be(f.bit_length));
    lemma_u16_be_round_trip(s, i + 1, f.bit_length);

    // the index block sits at offset 3
    let idx = f.enc_indices();
    let o = i + 3;
    assert(s.subrange(o, o + idx.len() as int) == idx) by {
        lemma_slice_of_slice(s, i, e, 3, 3 + idx.len() as int);
        assert(e.subrange(3, 3 + idx.len() as int) =~= idx);
    }
    if spec_is_reliable(rel) {
        assert(s.subrange(o, o + 3) =~= enc_u24_le(f.reliable_index->Some_0)) by {
            lemma_slice_of_slice(s, o, idx, 0, 3);
            assert(idx.subrange(0, 3) =~= enc_u24_le(f.reliable_index->Some_0));
        }
        lemma_u24_le_round_trip(s, o, f.reliable_index->Some_0);
    }
    let o2 = o + lr;
    if spec_is_sequenced(rel) {
        assert(s.subrange(o2, o2 + 3) =~= enc_u24_le(f.sequence_index->Some_0)) by {
            lemma_slice_of_slice(s, o, idx, lr, lr + 3);
            assert(idx.subrange(lr, lr + 3) =~= enc_u24_le(f.sequence_index->Some_0));
        }
        lemma_u24_le_round_trip(s, o2, f.sequence_index->Some_0);
    }
    let o3 = o2 + ls;
    if spec_is_ordered(rel) || spec_is_sequenced(rel) {
        assert(s.subrange(o3, o3 + 3) =~= enc_u24_le(f.ordering_index->Some_0)) by {
            lemma_slice_of_slice(s, o, idx, lr + ls, lr + ls + 3);
            assert(idx.subrange(lr + ls, lr + ls + 3) =~= enc_u24_le(f.ordering_index->Some_0));
        }
        lemma_u24_le_round_trip(s, o3, f.ordering_index->Some_0);
        assert(s[o3 + 3] == f.ordering_channel->Some_0) by {
            lemma_slice_of_slice(s, o, idx, lr + ls + 3, lr + ls + 4);
            assert(idx.subrange(lr + ls + 3, lr + ls + 4)[0] == idx[lr + ls + 3]);
            assert(s.subrange(o3 + 3, o3 + 4)[0] == s[o3 + 3]);
            assert(idx[lr + ls + 3] == f.ordering_channel->Some_0);
        }
    }
    let o4 = o3 + lo;
    if f.is_split {
        let sp = f.split->Some_0;
        assert(s.subrange(o4, o4 + 4) =~= enc_u32_be(sp.count)) by {
            lemma_slice_of_slice(s, o, idx, lr + ls + lo, lr + ls + lo + 4);
            assert(idx.subrange(lr + ls + lo, lr + ls + lo + 4) =~= enc_u32_be(sp.count));
        }
        lemma_u32_be_round_trip(s, o4, sp.count);
        assert(s.subrange(o4 + 4, o4 + 6) =~= enc_u16_be(sp.id)) by {
            lemma_slice_of_slice(s, o, idx, lr + ls + lo + 4, lr + ls + lo + 6);
            assert(idx.subrange(lr + ls + lo + 4, lr + ls + lo + 6) =~= enc_u16_be(sp.id));
        }
        lemma_u16_be_round_trip(s, o4 + 4, sp.id);
        assert(s.subrange(o4 + 6, o4 + 10) =~= enc_u32_be(sp.index)) by {
            lemma_slice_of_slice(s, o, idx, lr + ls + lo + 6, lr + ls + lo + 10);
            assert(idx.subrange(lr + ls + lo + 6, lr + ls + lo + 10) =~= enc_u32_be(sp.index));
        }
        lemma_u32_be_round_trip(s, o4 + 6, sp.index);
    }
    let o5 = o4 + lsp;
    assert(o5 == i + hl);
    assert(s.subrange(o5, o5 + plen) == f.payload) by {
        lemma_slice_of_slice(s, i, e, hl, hl + plen);
        assert(e.subrange(hl, hl + plen) =~= f.payload);
    }
}

/// Decoding an encoded well-formed frame from any position where its bytes
/// sit yields the frame back.
#[verifier::rlimit(100)]
pub proof fn lemma_frame_round_trip(s: Seq<u8>, i: int, f: FrameView)
    requires
        0 <= i,
        f.wf(),
        i + enc_frame(f).len() <= s.len(),
        s.subrange(i, i + enc_frame(f).len()) == enc_frame(f),
    ensures
        dec_frame(s, i) == Ok::<_, DecodeError>((f, i + enc_frame(f).len())),
{
    lemma_frame_fields_decode(s, i, f);
    let d = dec_frame(s, i);
    assert(d is Ok);
    let (g, end) = d->Ok_0;
    assert(end == i + enc_frame(f).len());
    assert(g == f);
}

impl EncapsulatedPacket {
    /// Payload length in bytes, derived from the bit length.
    pub fn payload_len(&self) -> (r: usize)
        ensures
            r == spec_payload_len(self.bit_length),
    {
        ((self.bit_length as usize) + 7) / 8
    }

    /// Runtime check of the frame invariant.
    pub fn is_wf(&self) -> (r: bool)
        ensures
            r == self@.wf(),
    {
        let rel_ok = match &self.reliable_index {
            Some(x) => self.reliability.is_reliable() && x.0 < 0x1000000,
            None => !self.reliability.is_reliable(),
        };
        let seq_ok = match &self.sequence_index {
            Some(x) => self.reliability.is_sequenced() && x.0 < 0x1000000,
            None => !self.reliability.is_sequenced(),
        };
        let ord_wanted = self.reliability.is_ordered() || self.reliability.is_sequenced();
        let ord_ok = match &self.ordering_index {
            Some(x) => ord_wanted && x.0 < 0x1000000,
            None => !ord_wanted,
        };
        let ch_ok = match &self.ordering_channel {
            Some(_) => ord_wanted,
            None => !ord_wanted,
        };
        let sp_ok = match &self.split {
            Some(_) => self.is_split,
            None => !self.is_split,
        };
        let len_ok = self.payload.len() == ((self.bit_length as usize) + 7) / 8;
        rel_ok && seq_ok && ord_ok && ch_ok && sp_ok && len_ok
    }

    #[verifier::rlimit(60)]
    pub fn encode_raknet(&self, out: &mut Vec<u8>)
        requires
            self@.wf(),
        ensures
            final(out)@ == old(out)@ + enc_frame(self@),
    {
        let ghost f = self@;
        let rel = self.reliability.to_u8();
        let flags: u8 = rel * 32 + (if self.is_split {
            16
        } else {
            0
        }) + (if self.needs_bas {
            4
        } else {
            0
        });
        out.push(flags);
        encode_u16_be(self.bit_length, out);
        assert(out@ =~= old(out)@ + seq![f.flags_byte()] + enc_u16_be(f.bit_length));
        let ghost head = out@;
        let ghost part_r = if spec_is_reliable(f.reliability) {
            enc_u24_le(f.reliable_index->Some_0)
        } else {
            Seq::<u8>::empty()
        };
        match &self.reliable_index {
            Some(x) => encode_u24_le(x.0, out),
            None => {},
        }
        assert(out@ =~= head + part_r);
        let ghost part_s = if spec_is_sequenced(f.reliability) {
            enc_u24_le(f.sequence_index->Some_0)
        } else {
            Seq::<u8>::empty()
        };
        match &self.sequence_index {
            Some(x) => encode_u24_le(x.0, out),
            None => {},
        }
        assert(out@ =~= head + part_r + part_s);
        let ghost part_o = if spec_is_ordered(f.reliability) || spec_is_sequenced(f.reliability) {
            enc_u24_le(f.ordering_index->Some_0) + seq![f.ordering_channel->Some_0]
        } else {
            Seq::<u8>::empty()
        };
        match &self.ordering_index {
            Some(x) => {
                encode_u24_le(x.0, out);
                match &self.ordering_channel {
                    Some(ch) => out.push(*ch),
                    None => {
                        proof {
                            assert(false);
                        }
                    },
                }
            },
            None => {},
        }
        assert(out@ =~= head + part_r + part_s + part_o);
        let ghost part_sp = if f.is_split {
            enc_u32_be(f.split->Some_0.count) + enc_u16_be(f.split->Some_0.id) + enc_u32_be(
                f.split->Some_0.index,
            )
        } else {
            Seq::<u8>::empty()
        };
        match &self.split {
            Some(sp) => {
                encode_u32_be(sp.count, out);
                encode_u16_be(sp.id, out);
                encode_u32_be(sp.index, out);
            },
            None => {},
        }
        assert(out@ =~= head + part_r + part_s + part_o + part_sp);
        assert(f.enc_indices() =~= part_r + part_s + part_o + part_sp);
        append_bytes(&self.payload, out);
        assert(out@ =~= old(out)@ + enc_frame(f));
    }

    pub fn decode_raknet(buf: &Vec<u8>, pos: usize) -> (r: Result<
        (EncapsulatedPacket, usize),
        DecodeError,
    >)
        ensures
            match r {
                Ok((f, end)) => {
                    &&& dec_frame(buf@, pos as int) matches Ok(d) && d == (f@, end as int)
                    &&& f@.wf()
                    &&& pos < end <= buf@.len()
                },
                Err(e) => dec_frame(buf@, pos as int) == Err::<(FrameView, int), _>(e),
            },
    {
        let (flags, i1) = match decode_u8(buf, pos) {
            Ok(x) => x,
            Err(e) => return Err(e),
        };
        let rel = match Reliability::from_u8(flags / 32) {
            Ok(x) => x,
            Err(e) => return Err(e),
        };
        let (bl, i2) = match decode_u16_be(buf, i1) {
            Ok(x) => x,
            Err(e) => return Err(e),
        };
        let is_split = (flags / 16) % 2 == 1;
        let needs_bas = (flags / 4) % 2 == 1;
        let mut reliable_index: Option<Sequence24> = None;
        let mut p = i2;
        if rel.is_reliable() {
            match decode_u24_le(buf, p) {
                Ok((x, j)) => {
                    reliable_index = Some(Sequence24(x));
                    p = j;
                },
                Err(e) => return Err(e),
            }
        }
        let mut sequence_index: Option<Sequence24> = None;
        if rel.is_sequenced() {
            match decode_u24_le(buf, p) {
                Ok((x, j)) => {
                    sequence_index = Some(Sequence24(x));
                    p = j;
                },
                Err(e) => return Err(e),
            }
        }
        let mut ordering_index: Option<Sequence24> = None;
        let mut ordering_channel: Option<u8> = None;
        if rel.is_ordered() || rel.is_sequenced() {
            match decode_u24_le(buf, p) {
                Ok((x, j)) => {
                    match decode_u8(buf, j) {
                        Ok((ch, j2)) => {
                            ordering_index = Some(Sequence24(x));
                            ordering_channel = Some(ch);
                            p = j2;
                        },
                        Err(e) => return Err(e),
                    }
                },
                Err(e) => return Err(e),
            }
        }
        let mut split: Option<SplitInfo> = None;
        if is_split {
            match decode_u32_be(buf, p) {
                Ok((count, j)) => {
                    match decode_u16_be(buf, j) {
                        Ok((id, j2)) => {
                            match decode_u32_be(buf, j2) {
                                Ok((index, j3)) => {
                                    split = Some(SplitInfo { count, id, index });
                                    p = j3;
                                },
                                Err(e) => return Err(e),
                            }
                        },
                        Err(e) => return Err(e),
                    }
                },
                Err(e) => return Err(e),
            }
        }
        let plen = ((bl as usize) + 7) / 8;
        let (payload, end) = match read_bytes(buf, p, plen) {
            Ok(x) => x,
            Err(e) => return Err(e),
        };
        Ok(
            (
                EncapsulatedPacket {
                    reliability: rel,
                    is_split,
                    needs_bas,
                    bit_length: bl,
                    reliable_index,
                    sequence_index,
                    ordering_index,
                    ordering_channel,
                    split,
                    payload,
                },
                end,
            ),
        )
    }
}

} // verus!
