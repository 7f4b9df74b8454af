//! Wire codec for RakNet primitives.
//!
//! Every value is encoded by appending bytes to a `Vec<u8>` and decoded from a
//! byte buffer at a position, returning the value together with the position
//! just past the bytes read. For each primitive there is a spec-level encoding
//! (`enc_*`), a spec-level decoder (`dec_*`), and executable functions proved
//! to follow them exactly; round-trip lemmas state that decoding an encoding
//! yields the value back.

use vstd::prelude::*;

verus! {

/// Errors that may occur while decoding RakNet values or packets.
#[derive(Debug)]
pub enum DecodeError {
    /// The buffer did not contain enough bytes to decode the requested value.
    UnexpectedEof,
    /// A control packet ID was not recognised.
    UnknownId(u8),
    /// A variable-length integer exceeded 64 bits.
    VarIntExceedsLimit,
    /// A legacy packet with no implemented body.
    UnimplementedPacket { id: u8, payload: Vec<u8> },
    /// An address encoding used an unsupported version field.
    InvalidAddrVersion(u8),
    /// A disconnect reason byte that maps to no known variant.
    UnknownDisconnectReason(u8),
    /// A reliability value outside the seven known variants.
    UnknownReliability(u8),
}

// ---------------------------------------------------------------------------
// u8
// ---------------------------------------------------------------------------

pub open spec fn enc_u8(v: u8) -> Seq<u8> {
    seq![v]
}

pub open spec fn dec_u8(s: Seq<u8>, i: int) -> Result<(u8, int), DecodeError> {
    if i + 1 <= s.len() {
        Ok((s[i], i + 1))
    } else {
        Err(DecodeError::UnexpectedEof)
    }
}

pub fn encode_u8(v: u8, out: &mut Vec<u8>)
    ensures
        final(out)@ == old(out)@ + enc_u8(v),
{
    out.push(v);
    assert(out@ =~= old(out)@ + enc_u8(v));
}

pub fn decode_u8(buf: &Vec<u8>, pos: usize) -> (r: Result<(u8, usize), DecodeError>)
    ensures
        match r {
            Ok((v, end)) => dec_u8(buf@, pos as int) == Ok::<_, DecodeError>((v, end as int))
                && pos < end <= buf@.len(),
            Err(e) => dec_u8(buf@, pos as int) == Err::<(u8, int), _>(e),
        },
{
    if pos < buf.len() {
        Ok((buf[pos], pos + 1))
    } else {
        Err(DecodeError::UnexpectedEof)
    }
}

pub proof fn lemma_u8_round_trip(s: Seq<u8>, i: int, v: u8)
    requires
        0 <= i,
        i + 1 <= s.len(),
        s.subrange(i, i + 1) == enc_u8(v),
    ensures
        dec_u8(s, i) == Ok::<_, DecodeError>((v, i + 1)),
{
    assert(s[i] == s.subrange(i, i + 1)[0]);
}

// ---------------------------------------------------------------------------
// bool (one byte; 1 encodes true, 0 false; decoding reads any nonzero
// byte other than 1 as false, as the reference wire format does)
// ---------------------------------------------------------------------------

pub open spec fn enc_bool(v: bool) -> Seq<u8> {
    seq![if v { 1u8 } else { 0u8 }]
}

pub open spec fn dec_bool(s: Seq<u8>, i: int) -> Result<(bool, int), DecodeError> {
    if i + 1 <= s.len() {
        Ok((s[i] == 1, i + 1))
    } else {
        Err(DecodeError::UnexpectedEof)
    }
}

pub fn encode_bool(v: bool, out: &mut Vec<u8>)
    ensures
        final(out)@ == old(out)@ + enc_bool(v),
{
    out.push(if v { 1 } else { 0 });
    assert(out@ =~= old(out)@ + enc_bool(v));
}

pub fn decode_bool(buf: &Vec<u8>, pos: usize) -> (r: Result<(bool, usize), DecodeError>)
    ensures
        match r {
            Ok((v, end)) => dec_bool(buf@, pos as int) == Ok::<_, DecodeError>((v, end as int))
                && pos < end <= buf@.len(),
            Err(e) => dec_bool(buf@, pos as int) == Err::<(bool, int), _>(e),
        },
{
    if pos < buf.len() {
        Ok((buf[pos] == 1, pos + 1))
    } else {
        Err(DecodeError::UnexpectedEof)
    }
}

pub proof fn lemma_bool_round_trip(s: Seq<u8>, i: int, v: bool)
    requires
        0 <= i,
        i + 1 <= s.len(),
        s.subrange(i, i + 1) == enc_bool(v),
    ensures
        dec_bool(s, i) == Ok::<_, DecodeError>((v, i + 1)),
{
    assert(s[i] == s.subrange(i, i + 1)[0]);
}

// ---------------------------------------------------------------------------
// u16 big-endian
// ---------------------------------------------------------------------------

pub open spec fn enc_u16_be(v: u16) -> Seq<u8> {
    seq![(v / 256) as u8, (v % 256) as u8]
}

pub open spec fn dec_u16_be(s: Seq<u8>, i: int) -> Result<(u16, int), DecodeError> {
    if i + 2 <= s.len() {
        Ok((((s[i] as u16) * 256 + (s[i + 1] as u16)) as u16, i + 2))
    } else {
        Err(DecodeError::UnexpectedEof)
    }
}

pub fn encode_u16_be(v: u16, out: &mut Vec<u8>)
    ensures
        final(out)@ == old(out)@ + enc_u16_be(v),
{
    out.push((v / 256) as u8);
    out.push((v % 256) as u8);
    assert(out@ =~= old(out)@ + enc_u16_be(v));
}

pub fn decode_u16_be(buf: &Vec<u8>, pos: usize) -> (r: Result<(u16, usize), DecodeError>)
    ensures
        match r {
            Ok((v, end)) => dec_u16_be(buf@, pos as int) == Ok::<_, DecodeError>((v, end as int))
                && pos < end <= buf@.len(),
            Err(e) => dec_u16_be(buf@, pos as int) == Err::<(u16, int), _>(e),
        },
{
    if pos <= buf.len() && 2 <= buf.len() - pos {
        let b0 = buf[pos] as u16;
        let b1 = buf[pos + 1] as u16;
        Ok((b0 * 256 + b1, pos + 2))
    } else {
        Err(DecodeError::UnexpectedEof)
    }
}

pub proof fn lemma_u16_be_round_trip(s: Seq<u8>, i: int, v: u16)
    requires
        0 <= i,
        i + 2 <= s.len(),
        s.subrange(i, i + 2) == enc_u16_be(v),
    ensures
        dec_u16_be(s, i) == Ok::<_, DecodeError>((v, i + 2)),
{
    assert(s[i] == s.subrange(i, i + 2)[0]);
    assert(s[i + 1] == s.subrange(i, i + 2)[1]);
}

// ---------------------------------------------------------------------------
// u16 little-endian
// ---------------------------------------------------------------------------

pub open spec fn enc_u16_le(v: u16) -> Seq<u8> {
    seq![(v % 256) as u8, (v / 256) as u8]
}

pub open spec fn dec_u16_le(s: Seq<u8>, i: int) -> Result<(u16, int), DecodeError> {
    if i + 2 <= s.len() {
        Ok((((s[i] as u16) + (s[i + 1] as u16) * 256) as u16, i + 2))
    } else {
        Err(DecodeError::UnexpectedEof)
    }
}

pub fn encode_u16_le(v: u16, out: &mut Vec<u8>)
    ensures
        final(out)@ == old(out)@ + enc_u16_le(v),
{
    out.push((v % 256) as u8);
    out.push((v / 256) as u8);
    assert(out@ =~= old(out)@ + enc_u16_le(v));
}

pub fn decode_u16_le(buf: &Vec<u8>, pos: usize) -> (r: Result<(u16, usize), DecodeError>)
    ensures
        match r {
            Ok((v, end)) => dec_u16_le(buf@, pos as int) == Ok::<_, DecodeError>((v, end as int))
                && pos < end <= buf@.len(),
            Err(e) => dec_u16_le(buf@, pos as int) == Err::<(u16, int), _>(e),
        },
{
    if pos <= buf.len() && 2 <= buf.len() - pos {
        let b0 = buf[pos] as u16;
        let b1 = buf[pos + 1] as u16;
        Ok((b0 + b1 * 256, pos + 2))
    } else {
        Err(DecodeError::UnexpectedEof)
    }
}

pub proof fn lemma_u16_le_round_trip(s: Seq<u8>, i: int, v: u16)
    requires
        0 <= i,
        i + 2 <= s.len(),
        s.subrange(i, i + 2) == enc_u16_le(v),
    ensures
        dec_u16_le(s, i) == Ok::<_, DecodeError>((v, i + 2)),
{
    assert(s[i] == s.subrange(i, i + 2)[0]);
    assert(s[i + 1] == s.subrange(i, i + 2)[1]);
}

// ---------------------------------------------------------------------------
// u24 little-endian (sequence numbers)
// ---------------------------------------------------------------------------

pub open spec fn enc_u24_le(v: u32) -> Seq<u8> {
    seq![(v % 256) as u8, ((v / 256) % 256) as u8, ((v / 0x10000) % 256) as u8]
}

pub open spec fn dec_u24_le(s: Seq<u8>, i: int) -> Result<(u32, int), DecodeError> {
    if i + 3 <= s.len() {
        Ok((((s[i] as u32) + (s[i + 1] as u32) * 256 + (s[i + 2] as u32) * 0x10000) as u32, i + 3))
    } else {
        Err(DecodeError::UnexpectedEof)
    }
}

pub fn encode_u24_le(v: u32, out: &mut Vec<u8>)
    ensures
        final(out)@ == old(out)@ + enc_u24_le(v),
{
    out.push((v % 256) as u8);
    out.push(((v / 256) % 256) as u8);
    out.push(((v / 0x10000) % 256) as u8);
    assert(out@ =~= old(out)@ + enc_u24_le(v));
}

pub fn decode_u24_le(buf: &Vec<u8>, pos: usize) -> (r: Result<(u32, usize), DecodeError>)
    ensures
        match r {
            Ok((v, end)) => dec_u24_le(buf@, pos as int) == Ok::<_, DecodeError>((v, end as int))
                && pos < end <= buf@.len()
                && v < 0x1000000,
            Err(e) => dec_u24_le(buf@, pos as int) == Err::<(u32, int), _>(e),
        },
{
    if pos <= buf.len() && 3 <= buf.len() - pos {
        let b0 = buf[pos] as u32;
        let b1 = buf[pos + 1] as u32;
        let b2 = buf[pos + 2] as u32;
        Ok((b0 + b1 * 256 + b2 * 0x10000, pos + 3))
    } else {
        Err(DecodeError::UnexpectedEof)
    }
}

/// A 24-bit value (below 2^24) survives the 3-byte little-endian round trip.
pub proof fn lemma_u24_le_round_trip(s: Seq<u8>, i: int, v: u32)
    requires
        0 <= i,
        i + 3 <= s.len(),
        v < 0x1000000,
        s.subrange(i, i + 3) == enc_u24_le(v),
    ensures
        dec_u24_le(s, i) == Ok::<_, DecodeError>((v, i + 3)),
{
    assert(s[i] == s.subrange(i, i + 3)[0]);
    assert(s[i + 1] == s.subrange(i, i + 3)[1]);
    assert(s[i + 2] == s.subrange(i, i + 3)[2]);
    assert((v % 256) + ((v / 256) % 256) * 256 + ((v / 0x10000) % 256) * 0x10000 == v) by {
        lemma_three_digit_recompose(v as nat);
    }
}

// ---------------------------------------------------------------------------
// u32 big-endian (two big-endian u16 halves)
// ---------------------------------------------------------------------------

pub open spec fn enc_u32_be(v: u32) -> Seq<u8> {
    enc_u16_be((v / 0x10000) as u16) + enc_u16_be((v % 0x10000) as u16)
}

pub open spec fn dec_u32_be(s: Seq<u8>, i: int) -> Result<(u32, int), DecodeError> {
    match dec_u16_be(s, i) {
        Ok((hi, j)) => match dec_u16_be(s, j) {
            Ok((lo, k)) => Ok((((hi as u32) * 0x10000 + (lo as u32)) as u32, k)),
            Err(e) => Err(e),
        },
        Err(e) => Err(e),
    }
}

pub fn encode_u32_be(v: u32, out: &mut Vec<u8>)
    ensures
        final(out)@ == old(out)@ + enc_u32_be(v),
{
    encode_u16_be((v / 0x10000) as u16, out);
    encode_u16_be((v % 0x10000) as u16, out);
    assert(out@ =~= old(out)@ + enc_u32_be(v));
}

pub fn decode_u32_be(buf: &Vec<u8>, pos: usize) -> (r: Result<(u32, usize), DecodeError>)
    ensures
        match r {
            Ok((v, end)) => dec_u32_be(buf@, pos as int) == Ok::<_, DecodeError>((v, end as int))
                && pos < end <= buf@.len(),
            Err(e) => dec_u32_be(buf@, pos as int) == Err::<(u32, int), _>(e),
        },
{
    let (hi, j) = match decode_u16_be(buf, pos) {
        Ok(x) => x,
        Err(e) => return Err(e),
    };
    let (lo, k) = match decode_u16_be(buf, j) {
        Ok(x) => x,
        Err(e) => return Err(e),
    };
    Ok(((hi as u32) * 0x10000 + (lo as u32), k))
}

pub proof fn lemma_u32_be_round_trip(s: Seq<u8>, i: int, v: u32)
    requires
        0 <= i,
        i + 4 <= s.len(),
        s.subrange(i, i + 4) == enc_u32_be(v),
    ensures
        dec_u32_be(s, i) == Ok::<_, DecodeError>((v, i + 4)),
{
    let hi = (v / 0x10000) as u16;
    let lo = (v % 0x10000) as u16;
    assert(s.subrange(i, i + 2) =~= s.subrange(i, i + 4).subrange(0, 2));
    assert(s.subrange(i + 2, i + 4) =~= s.subrange(i, i + 4).subrange(2, 4));
    assert(s.subrange(i, i + 4).subrange(0, 2) =~= enc_u16_be(hi));
    assert(s.subrange(i, i + 4).subrange(2, 4) =~= enc_u16_be(lo));
    lemma_u16_be_round_trip(s, i, hi);
    lemma_u16_be_round_trip(s, i + 2, lo);
}

// ---------------------------------------------------------------------------
// u64 big-endian (two big-endian u32 halves)
// ---------------------------------------------------------------------------

pub open spec fn enc_u64_be(v: u64) -> Seq<u8> {
    enc_u32_be((v / 0x100000000) as u32) + enc_u32_be((v % 0x100000000) as u32)
}

pub open spec fn dec_u64_be(s: Seq<u8>, i: int) -> Result<(u64, int), DecodeError> {
    match dec_u32_be(s, i) {
        Ok((hi, j)) => match dec_u32_be(s, j) {
            Ok((lo, k)) => Ok((((hi as u64) * 0x100000000 + (lo as u64)) as u64, k)),
            Err(e) => Err(e),
        },
        Err(e) => Err(e),
    }
}

pub fn encode_u64_be(v: u64, out: &mut Vec<u8>)
    ensures
        final(out)@ == old(out)@ + enc_u64_be(v),
{
    encode_u32_be((v / 0x100000000) as u32, out);
    encode_u32_be((v % 0x100000000) as u32, out);
    assert(out@ =~= old(out)@ + enc_u64_be(v));
}

pub fn decode_u64_be(buf: &Vec<u8>, pos: usize) -> (r: Result<(u64, usize), DecodeError>)
    ensures
        match r {
            Ok((v, end)) => dec_u64_be(buf@, pos as int) == Ok::<_, DecodeError>((v, end as int))
                && pos < end <= buf@.len(),
            Err(e) => dec_u64_be(buf@, pos as int) == Err::<(u64, int), _>(e),
        },
{
    let (hi, j) = match decode_u32_be(buf, pos) {
        Ok(x) => x,
        Err(e) => return Err(e),
    };
    let (lo, k) = match decode_u32_be(buf, j) {
        Ok(x) => x,
        Err(e) => return Err(e),
    };
    Ok(((hi as u64) * 0x100000000 + (lo as u64), k))
}

pub proof fn lemma_u64_be_round_trip(s: Seq<u8>, i: int, v: u64)
    requires
        0 <= i,
        i + 8 <= s.len(),
        s.subrange(i, i + 8) == enc_u64_be(v),
    ensures
        dec_u64_be(s, i) == Ok::<_, DecodeError>((v, i + 8)),
{
    let hi = (v / 0x100000000) as u32;
    let lo = (v % 0x100000000) as u32;
    assert(s.subrange(i, i + 4) =~= s.subrange(i, i + 8).subrange(0, 4));
    assert(s.subrange(i + 4, i + 8) =~= s.subrange(i, i + 8).subrange(4, 8));
    assert(s.subrange(i, i + 8).subrange(0, 4) =~= enc_u32_be(hi));
    assert(s.subrange(i, i + 8).subrange(4, 8) =~= enc_u32_be(lo));
    lemma_u32_be_round_trip(s, i, hi);
    lemma_u32_be_round_trip(s, i + 4, lo);
}

// ---------------------------------------------------------------------------
// i8 (sign carried through the two's-complement byte)
// ---------------------------------------------------------------------------

pub open spec fn i8_to_byte(v: i8) -> u8 {
    if v >= 0 {
        v as u8
    } else {
        (v + 256) as u8
    }
}

pub open spec fn byte_to_i8(b: u8) -> i8 {
    if b < 128 {
        b as i8
    } else {
        (b - 256) as i8
    }
}

pub open spec fn enc_i8(v: i8) -> Seq<u8> {
    seq![i8_to_byte(v)]
}

pub open spec fn dec_i8(s: Seq<u8>, i: int) -> Result<(i8, int), DecodeError> {
    if i + 1 <= s.len() {
        Ok((byte_to_i8(s[i]), i + 1))
    } else {
        Err(DecodeError::UnexpectedEof)
    }
}

pub fn encode_i8(v: i8, out: &mut Vec<u8>)
    ensures
        final(out)@ == old(out)@ + enc_i8(v),
{
    let b: u8 = if v >= 0 {
        v as u8
    } else {
        ((v as i16) + 256) as u8
    };
    out.push(b);
    assert(out@ =~= old(out)@ + enc_i8(v));
}

pub fn decode_i8(buf: &Vec<u8>, pos: usize) -> (r: Result<(i8, usize), DecodeError>)
    ensures
        match r {
            Ok((v, end)) => dec_i8(buf@, pos as int) == Ok::<_, DecodeError>((v, end as int))
                && pos < end <= buf@.len(),
            Err(e) => dec_i8(buf@, pos as int) == Err::<(i8, int), _>(e),
        },
{
    if pos < buf.len() {
        let b = buf[pos];
        let v: i8 = if b < 128 {
            b as i8
        } else {
            ((b as i16) - 256) as i8
        };
        Ok((v, pos + 1))
    } else {
        Err(DecodeError::UnexpectedEof)
    }
}

pub proof fn lemma_i8_round_trip(s: Seq<u8>, i: int, v: i8)
    requires
        0 <= i,
        i + 1 <= s.len(),
        s.subrange(i, i + 1) == enc_i8(v),
    ensures
        dec_i8(s, i) == Ok::<_, DecodeError>((v, i + 1)),
{
    assert(s[i] == s.subrange(i, i + 1)[0]);
}

// ---------------------------------------------------------------------------
// Raw byte runs (magic, payloads, paddings)
// ---------------------------------------------------------------------------

/// Appends every byte of `src` to `out`.
pub fn append_bytes(src: &Vec<u8>, out: &mut Vec<u8>)
    ensures
        final(out)@ == old(out)@ + src@,
{
    let mut k: usize = 0;
    while k < src.len()
        invariant
            k <= src@.len(),
            out@ == old(out)@ + src@.take(k as int),
        decreases src@.len() - k,
    {
        out.push(src[k]);
        assert(out@ =~= old(out)@ + src@.take(k as int + 1));
        k = k + 1;
    }
    assert(src@.take(src@.len() as int) =~= src@);
}

/// Reads exactly `n` bytes starting at `pos`.
pub fn read_bytes(buf: &Vec<u8>, pos: usize, n: usize) -> (r: Result<
    (Vec<u8>, usize),
    DecodeError,
>)
    ensures
        match r {
            Ok((v, end)) => pos + n <= buf@.len() && end == pos + n && v@ == buf@.subrange(
                pos as int,
                pos + n,
            ),
            Err(e) => (pos + n > buf@.len()) && e matches DecodeError::UnexpectedEof,
        },
{
    let len = buf.len();
    if pos <= len && n <= len - pos {
        let mut v: Vec<u8> = Vec::new();
        let mut k: usize = 0;
        while k < n
            invariant
                k <= n,
                len == buf@.len(),
                pos + n <= len,
                v@ == buf@.subrange(pos as int, pos + k),
            decreases n - k,
        {
            v.push(buf[pos + k]);
            assert(v@ =~= buf@.subrange(pos as int, pos + k + 1));
            k = k + 1;
        }
        Ok((v, pos + n))
    } else {
        Err(DecodeError::UnexpectedEof)
    }
}

/// Length of the fixed offline-message magic.
pub const MAGIC_LEN: usize = 16;

/// The fixed 16-byte offline-message magic.
pub open spec fn spec_default_magic() -> Seq<u8> {
    seq![
        0x00u8, 0xFFu8, 0xFFu8, 0x00u8, 0xFEu8, 0xFEu8, 0xFEu8, 0xFEu8, 0xFDu8, 0xFDu8, 0xFDu8,
        0xFDu8, 0x12u8, 0x34u8, 0x56u8, 0x78u8,
    ]
}

/// Builds the fixed 16-byte offline-message magic.
pub fn default_magic() -> (r: Vec<u8>)
    ensures
        r@ == spec_default_magic(),
{
    let v: Vec<u8> = vec![
        0x00u8, 0xFFu8, 0xFFu8, 0x00u8, 0xFEu8, 0xFEu8, 0xFEu8, 0xFEu8, 0xFDu8, 0xFDu8, 0xFDu8,
        0xFDu8, 0x12u8, 0x34u8, 0x56u8, 0x78u8,
    ];
    assert(v@ =~= spec_default_magic());
    v
}

pub open spec fn enc_magic(m: Seq<u8>) -> Seq<u8> {
    m
}

pub open spec fn dec_magic(s: Seq<u8>, i: int) -> Result<(Seq<u8>, int), DecodeError> {
    if i + 16 <= s.len() {
        Ok((s.subrange(i, i + 16), i + 16))
    } else {
        Err(DecodeError::UnexpectedEof)
    }
}

/// Appends the 16 magic bytes.
pub fn encode_magic(m: &Vec<u8>, out: &mut Vec<u8>)
    requires
        m@.len() == 16,
    ensures
        final(out)@ == old(out)@ + enc_magic(m@),
{
    append_bytes(m, out);
}

/// Reads the 16 magic bytes (any values; callers compare as needed).
pub fn decode_magic(buf: &Vec<u8>, pos: usize) -> (r: Result<(Vec<u8>, usize), DecodeError>)
    ensures
        match r {
            Ok((v, end)) => dec_magic(buf@, pos as int) == Ok::<_, DecodeError>((v@, end as int))
                && pos < end <= buf@.len() && v@.len() == 16,
            Err(e) => dec_magic(buf@, pos as int) == Err::<(Seq<u8>, int), _>(e),
        },
{
    match read_bytes(buf, pos, 16) {
        Ok((v, end)) => Ok((v, end)),
        Err(_) => Err(DecodeError::UnexpectedEof),
    }
}

pub proof fn lemma_magic_round_trip(s: Seq<u8>, i: int, m: Seq<u8>)
    requires
        0 <= i,
        m.len() == 16,
        i + 16 <= s.len(),
        s.subrange(i, i + 16) == enc_magic(m),
    ensures
        dec_magic(s, i) == Ok::<_, DecodeError>((m, i + 16)),
{
}

// ---------------------------------------------------------------------------
// VarUInt: 7-bit little-endian groups, high bit marks continuation.
// Decoding fails once more than 64 bits would be consumed.
// ---------------------------------------------------------------------------

pub open spec fn enc_varuint(v: u64) -> Seq<u8>
    decreases v,
{
    if v < 128 {
        seq![v as u8]
    } else {
        seq![((v % 128) + 128) as u8] + enc_varuint((v / 128) as u64)
    }
}

/// Spec decoder for VarUInt, carrying the bit position and the value read so
/// far; the public entry point is `dec_varuint`.
pub open spec fn dec_varuint_at(s: Seq<u8>, i: int, shift: nat, acc: u64) -> Result<
    (u64, int),
    DecodeError,
>
    decreases 70 - shift,
{
    if shift >= 64 {
        Err(DecodeError::VarIntExceedsLimit)
    } else if i < 0 || i >= s.len() {
        Err(DecodeError::UnexpectedEof)
    } else {
        let b = s[i];
        let low = (b % 128) as int;
        if acc + low * vstd::arithmetic::power2::pow2(shift) > 0xffff_ffff_ffff_ffff {
            Err(DecodeError::VarIntExceedsLimit)
        } else {
            let acc2 = (acc + low * vstd::arithmetic::power2::pow2(shift)) as u64;
            if b < 128 {
                Ok((acc2, i + 1))
            } else {
                dec_varuint_at(s, i + 1, (shift + 7) as nat, acc2)
            }
        }
    }
}

pub open spec fn dec_varuint(s: Seq<u8>, i: int) -> Result<(u64, int), DecodeError> {
    dec_varuint_at(s, i, 0, 0)
}

pub fn encode_varuint(v: u64, out: &mut Vec<u8>)
    ensures
        final(out)@ == old(out)@ + enc_varuint(v),
    decreases v,
{
    if v < 128 {
        out.push(v as u8);
        assert(out@ =~= old(out)@ + enc_varuint(v));
    } else {
        out.push((v % 128 + 128) as u8);
        encode_varuint(v / 128, out);
        assert(out@ =~= old(out)@ + enc_varuint(v));
    }
}

pub fn decode_varuint(buf: &Vec<u8>, pos: usize) -> (r: Result<(u64, usize), DecodeError>)
    ensures
        match r {
            Ok((v, end)) => dec_varuint(buf@, pos as int) == Ok::<_, DecodeError>((v, end as int))
                && pos < end <= buf@.len(),
            Err(e) => dec_varuint(buf@, pos as int) == Err::<(u64, int), _>(e),
        },
{
    let len = buf.len();
    if pos >= len {
        return Err(DecodeError::UnexpectedEof);
    }
    let mut p = pos;
    let mut acc: u64 = 0;
    let mut m: u64 = 1;
    let ghost shift: nat = 0nat;
    proof {
        vstd::arithmetic::power2::lemma2_to64();
    }
    loop
        invariant
            pos <= p <= len,
            len == buf@.len(),
            shift <= 63,
            shift % 7 == 0,
            m == vstd::arithmetic::power2::pow2(shift),
            acc < m,
            dec_varuint(buf@, pos as int) == dec_varuint_at(buf@, p as int, shift, acc),
        decreases 64 - shift,
    {
        proof {
            vstd::arithmetic::power2::lemma2_to64();
            vstd::arithmetic::power2::lemma2_to64_rest();
        }
        if p >= len {
            return Err(DecodeError::UnexpectedEof);
        }
        let b = buf[p];
        let low: u64 = (b % 128) as u64;
        if m == 0x8000_0000_0000_0000u64 && low >= 2 {
            proof {
                assert(shift == 63) by {
                    if shift < 63 {
                        vstd::arithmetic::power2::lemma_pow2_strictly_increases(shift, 63);
                    }
                };
                assert(low * m >= 2 * m) by (nonlinear_arith)
                    requires low >= 2, m > 0;
            }
            return Err(DecodeError::VarIntExceedsLimit);
        }
        proof {
            if m == 0x8000_0000_0000_0000u64 {
                assert(acc + low * m <= 0xffff_ffff_ffff_ffff) by (nonlinear_arith)
                    requires acc < m, low <= 1, m == 0x8000_0000_0000_0000;
            } else {
                assert(shift <= 56) by {
                    if shift > 56 {
                        assert(shift == 63);
                        vstd::arithmetic::power2::lemma2_to64();
            vstd::arithmetic::power2::lemma2_to64_rest();
                    }
                };
                assert(m <= 0x100_0000_0000_0000) by {
                    if shift < 56 {
                        vstd::arithmetic::power2::lemma_pow2_strictly_increases(shift, 56);
                    }
                };
                assert(acc + low * m <= 0xffff_ffff_ffff_ffff) by (nonlinear_arith)
                    requires acc < m, low < 128, m <= 0x100_0000_0000_0000;
            }
        }
        let acc2: u64 = acc + low * m;
        if b < 128 {
            return Ok((acc2, p + 1));
        }
        if m == 0x8000_0000_0000_0000u64 {
            proof {
                assert(shift == 63) by {
                    if shift < 63 {
                        vstd::arithmetic::power2::lemma_pow2_strictly_increases(shift, 63);
                    }
                };
                assert(dec_varuint_at(buf@, (p + 1) as int, (shift + 7) as nat, acc2)
                    == Err::<(u64, int), DecodeError>(DecodeError::VarIntExceedsLimit));
                assert(dec_varuint_at(buf@, p as int, shift, acc)
                    == Err::<(u64, int), DecodeError>(DecodeError::VarIntExceedsLimit));
            }
            return Err(DecodeError::VarIntExceedsLimit);
        }
        proof {
            assert(shift <= 56) by {
                if shift > 56 {
                    assert(shift == 63);
                    vstd::arithmetic::power2::lemma2_to64();
                    vstd::arithmetic::power2::lemma2_to64_rest();
                }
            };
            assert(m <= 0x100_0000_0000_0000) by {
                if shift < 56 {
                    vstd::arithmetic::power2::lemma_pow2_strictly_increases(shift, 56);
                }
            };
            vstd::arithmetic::power2::lemma_pow2_adds(shift, 7);
            assert(vstd::arithmetic::power2::pow2(7) == 128);
            assert(acc2 < m * 128) by (nonlinear_arith)
                requires acc2 == acc + low * m, acc < m, low < 128, m > 0;
            assert(dec_varuint_at(buf@, p as int, shift, acc) == dec_varuint_at(
                buf@,
                (p + 1) as int,
                (shift + 7) as nat,
                acc2,
            ));
        }
        m = m * 128;
        p = p + 1;
        acc = acc2;
        proof {
            shift = (shift + 7) as nat;
        }
    }
}

/// Decoding an encoded VarUInt from any position where its bytes sit yields
/// the value back.
pub proof fn lemma_varuint_round_trip(s: Seq<u8>, i: int, v: u64)
    requires
        0 <= i,
        i + enc_varuint(v).len() <= s.len(),
        s.subrange(i, i + enc_varuint(v).len()) == enc_varuint(v),
    ensures
        dec_varuint(s, i) == Ok::<_, DecodeError>((v, i + enc_varuint(v).len())),
{
    vstd::arithmetic::power2::lemma2_to64();
            vstd::arithmetic::power2::lemma2_to64_rest();
    lemma_varuint_round_trip_at(s, i, v, 0, 0);
}

proof fn lemma_varuint_round_trip_at(s: Seq<u8>, i: int, v: u64, shift: nat, acc: u64)
    requires
        0 <= i,
        i + enc_varuint(v).len() <= s.len(),
        s.subrange(i, i + enc_varuint(v).len()) == enc_varuint(v),
        shift < 64,
        acc < vstd::arithmetic::power2::pow2(shift),
        acc + v * vstd::arithmetic::power2::pow2(shift) <= 0xffff_ffff_ffff_ffff,
    ensures
        dec_varuint_at(s, i, shift, acc) == Ok::<_, DecodeError>(
            ((acc + v * vstd::arithmetic::power2::pow2(shift)) as u64,
            i + enc_varuint(v).len()),
        ),
    decreases v,
{
    let m = vstd::arithmetic::power2::pow2(shift);
    vstd::arithmetic::power2::lemma_pow2_pos(shift);
    let b = s[i];
    assert(b == enc_varuint(v)[0]) by {
        assert(s.subrange(i, i + enc_varuint(v).len())[0] == s[i]);
    }
    if v < 128 {
        assert(b == v as u8);
        assert((b % 128) as int == v as int);
        assert(acc + v * m <= 0xffff_ffff_ffff_ffff);
    } else {
        assert(b == ((v % 128) + 128) as u8);
        let low = (b % 128) as int;
        assert(low == v % 128);
        assert(low * m <= v * m) by (nonlinear_arith)
            requires low <= v, m > 0, low >= 0;
        let acc2 = (acc + low * m) as u64;
        let v2 = (v / 128) as u64;
        vstd::arithmetic::power2::lemma_pow2_adds(shift, 7);
        vstd::arithmetic::power2::lemma2_to64();
            vstd::arithmetic::power2::lemma2_to64_rest();
        let m2 = vstd::arithmetic::power2::pow2((shift + 7) as nat);
        assert(m2 == m * 128);
        // the tail of the encoding sits just past the first byte
        assert(s.subrange(i + 1, i + 1 + enc_varuint(v2).len()) =~= enc_varuint(v2)) by {
            assert(enc_varuint(v) =~= seq![((v % 128) + 128) as u8] + enc_varuint(v2));
            assert forall|k: int| 0 <= k < enc_varuint(v2).len() implies s.subrange(
                i + 1,
                i + 1 + enc_varuint(v2).len(),
            )[k] == enc_varuint(v2)[k] by {
                assert(s.subrange(i, i + enc_varuint(v).len())[k + 1] == s[i + 1 + k]);
            }
        }
        // shift + 7 stays below 64: otherwise v * pow2(shift) would overflow
        assert(shift + 7 < 64) by {
            if shift + 7 >= 64 {
                assert(shift >= 57);
                vstd::arithmetic::power2::lemma_pow2_strictly_increases(56, shift);
                assert(m > 0x100_0000_0000_0000);
                assert(v * m >= 128 * m) by (nonlinear_arith)
                    requires v >= 128, m > 0;
            }
        };
        assert(acc2 < m2) by (nonlinear_arith)
            requires
                acc2 == acc + low * m,
                acc < m,
                low < 128,
                m > 0,
                m2 == m * 128;
        assert(acc2 + v2 * m2 == acc + v * m) by (nonlinear_arith)
            requires
                acc2 == acc + (v % 128) * m,
                v2 == v / 128,
                m2 == m * 128,
                v == 128 * (v / 128) + v % 128,
                m > 0;
        assert(v == 128 * (v / 128) + v % 128);
        lemma_varuint_round_trip_at(s, i + 1, v2, (shift + 7) as nat, acc2);
        assert(enc_varuint(v).len() == 1 + enc_varuint(v2).len());
    }
}

// ---------------------------------------------------------------------------
// VarInt: ZigZag mapping over VarUInt
// ---------------------------------------------------------------------------

pub open spec fn zigzag(x: i64) -> u64 {
    if x >= 0 {
        (2 * x) as u64
    } else {
        (-2 * x - 1) as u64
    }
}

pub open spec fn unzigzag(u: u64) -> i64 {
    if u % 2 == 0 {
        (u / 2) as i64
    } else {
        (-1 - (u / 2)) as i64
    }
}

pub open spec fn enc_varint(x: i64) -> Seq<u8> {
    enc_varuint(zigzag(x))
}

pub open spec fn dec_varint(s: Seq<u8>, i: int) -> Result<(i64, int), DecodeError> {
    match dec_varuint(s, i) {
        Ok((u, end)) => Ok((unzigzag(u), end)),
        Err(e) => Err(e),
    }
}

/// ZigZag is a bijection between the signed and unsigned 64-bit spaces.
pub proof fn lemma_zigzag_round_trip(x: i64)
    ensures
        unzigzag(zigzag(x)) == x,
{
}

pub fn encode_varint(x: i64, out: &mut Vec<u8>)
    ensures
        final(out)@ == old(out)@ + enc_varint(x),
{
    let u: u64 = if x >= 0 {
        (x as u64) * 2
    } else {
        ((-(x + 1)) as u64) * 2 + 1
    };
    assert(u == zigzag(x));
    encode_varuint(u, out);
}

pub fn decode_varint(buf: &Vec<u8>, pos: usize) -> (r: Result<(i64, usize), DecodeError>)
    ensures
        match r {
            Ok((v, end)) => dec_varint(buf@, pos as int) == Ok::<_, DecodeError>((v, end as int))
                && pos < end <= buf@.len(),
            Err(e) => dec_varint(buf@, pos as int) == Err::<(i64, int), _>(e),
        },
{
    match decode_varuint(buf, pos) {
        Ok((u, end)) => {
            let x: i64 = if u % 2 == 0 {
                (u / 2) as i64
            } else {
                -1 - ((u / 2) as i64)
            };
            assert(x == unzigzag(u));
            Ok((x, end))
        },
        Err(e) => Err(e),
    }
}

pub proof fn lemma_varint_round_trip(s: Seq<u8>, i: int, x: i64)
    requires
        0 <= i,
        i + enc_varint(x).len() <= s.len(),
        s.subrange(i, i + enc_varint(x).len()) == enc_varint(x),
    ensures
        dec_varint(s, i) == Ok::<_, DecodeError>((x, i + enc_varint(x).len())),
{
    lemma_varuint_round_trip(s, i, zigzag(x));
    lemma_zigzag_round_trip(x);
}

proof fn lemma_three_digit_recompose(v: nat)
    requires
        v < 0x1000000,
    ensures
        (v % 256) + ((v / 256) % 256) * 256 + ((v / 0x10000) % 256) * 0x10000 == v,
{
    let d0 = v % 256;
    let q0 = v / 256;
    assert(v == q0 * 256 + d0) by (nonlinear_arith)
        requires q0 == v / 256 && d0 == v % 256;
    let d1 = q0 % 256;
    let q1 = q0 / 256;
    assert(q0 == q1 * 256 + d1) by (nonlinear_arith)
        requires q1 == q0 / 256 && d1 == q0 % 256;
    assert(q1 == v / 0x10000) by (nonlinear_arith)
        requires q0 == v / 256 && q1 == q0 / 256;
    assert(q1 < 256);
    assert(q1 % 256 == q1);
}

// ---------------------------------------------------------------------------
// Socket addresses
// ---------------------------------------------------------------------------

/// A peer address as the wire format carries it. IPv4 octets are stored
/// uninverted; the inversion happens only on the wire.
#[derive(Clone, Copy, PartialEq, Eq, Debug)]
pub enum RakAddr {
    V4 { ip: [u8; 4], port: u16 },
    V6 { ip: [u8; 16], port: u16, flowinfo: u32, scope_id: u32 },
}

/// The wire family value written for IPv6 addresses.
pub const ADDR_FAMILY_V6: u16 = 23;

pub open spec fn enc_addr(a: RakAddr) -> Seq<u8> {
    match a {
        RakAddr::V4 { ip, port } => seq![
            4u8,
            (255 - ip[0]) as u8,
            (255 - ip[1]) as u8,
            (255 - ip[2]) as u8,
            (255 - ip[3]) as u8,
        ] + enc_u16_be(port),
        RakAddr::V6 { ip, port, flowinfo, scope_id } => seq![6u8] + enc_u16_le(23) + enc_u16_be(
            port,
        ) + enc_u32_be(flowinfo) + ip@ + enc_u32_be(scope_id),
    }
}

#[verifier::opaque]
pub open spec fn dec_addr(s: Seq<u8>, i: int) -> Result<(RakAddr, int), DecodeError> {
    if i + 1 > s.len() {
        Err(DecodeError::UnexpectedEof)
    } else if s[i] == 4 {
        if i + 7 <= s.len() {
            match dec_u16_be(s, i + 5) {
                Ok((port, end)) => Ok(
                    (
                        RakAddr::V4 {
                            ip: [
                                (255 - s[i + 1]) as u8,
                                (255 - s[i + 2]) as u8,
                                (255 - s[i + 3]) as u8,
                                (255 - s[i + 4]) as u8,
                            ],
                            port,
                        },
                        end,
                    ),
                ),
                Err(e) => Err(e),
            }
        } else {
            Err(DecodeError::UnexpectedEof)
        }
    } else if s[i] == 6 {
        if i + 29 <= s.len() {
            match (dec_u16_be(s, i + 3), dec_u32_be(s, i + 5), dec_u32_be(s, i + 25)) {
                (Ok((port, _)), Ok((flowinfo, _)), Ok((scope_id, _))) => Ok(
                    (
                        RakAddr::V6 {
                            ip: [
                                s[i + 9], s[i + 10], s[i + 11], s[i + 12], s[i + 13], s[i + 14],
                                s[i + 15], s[i + 16], s[i + 17], s[i + 18], s[i + 19], s[i + 20],
                                s[i + 21], s[i + 22], s[i + 23], s[i + 24],
                            ],
                            port,
                            flowinfo,
                            scope_id,
                        },
                        i + 29,
                    ),
                ),
                _ => Err(DecodeError::UnexpectedEof),
            }
        } else {
            Err(DecodeError::UnexpectedEof)
        }
    } else {
        Err(DecodeError::InvalidAddrVersion(s[i]))
    }
}

pub fn encode_addr(a: &RakAddr, out: &mut Vec<u8>)
    ensures
        final(out)@ == old(out)@ + enc_addr(*a),
{
    match a {
        RakAddr::V4 { ip, port } => {
            out.push(4);
            out.push(255 - ip[0]);
            out.push(255 - ip[1]);
            out.push(255 - ip[2]);
            out.push(255 - ip[3]);
            encode_u16_be(*port, out);
            assert(out@ =~= old(out)@ + enc_addr(*a));
        },
        RakAddr::V6 { ip, port, flowinfo, scope_id } => {
            out.push(6);
            encode_u16_le(23, out);
            encode_u16_be(*port, out);
            encode_u32_be(*flowinfo, out);
            let mut k: usize = 0;
            let ghost mid = out@;
            while k < 16
                invariant
                    k <= 16,
                    ip@.len() == 16,
                    out@ == mid + ip@.take(k as int),
                decreases 16 - k,
            {
                out.push(ip[k]);
                assert(out@ =~= mid + ip@.take(k as int + 1));
                k = k + 1;
            }
            assert(ip@.take(16) =~= ip@);
            encode_u32_be(*scope_id, out);
            assert(out@ =~= old(out)@ + enc_addr(*a));
        },
    }
}

pub fn decode_addr(buf: &Vec<u8>, pos: usize) -> (r: Result<(RakAddr, usize), DecodeError>)
    ensures
        match r {
            Ok((v, end)) => dec_addr(buf@, pos as int) == Ok::<_, DecodeError>((v, end as int))
                && pos < end <= buf@.len(),
            Err(e) => dec_addr(buf@, pos as int) == Err::<(RakAddr, int), _>(e),
        },
{
    proof {
        reveal(dec_addr);
    }
    let len = buf.len();
    if pos >= len {
        return Err(DecodeError::UnexpectedEof);
    }
    let version = buf[pos];
    if version == 4 {
        if len - pos >= 7 {
            let ip: [u8; 4] = [
                255 - buf[pos + 1],
                255 - buf[pos + 2],
                255 - buf[pos + 3],
                255 - buf[pos + 4],
            ];
            let (port, end) = match decode_u16_be(buf, pos + 5) {
                Ok(x) => x,
                Err(e) => return Err(e),
            };
            Ok((RakAddr::V4 { ip, port }, end))
        } else {
            Err(DecodeError::UnexpectedEof)
        }
    } else if version == 6 {
        if len - pos >= 29 {
            let (port, _) = match decode_u16_be(buf, pos + 3) {
                Ok(x) => x,
                Err(e) => return Err(e),
            };
            let (flowinfo, _) = match decode_u32_be(buf, pos + 5) {
                Ok(x) => x,
                Err(e) => return Err(e),
            };
            let ip: [u8; 16] = [
                buf[pos + 9],
                buf[pos + 10],
                buf[pos + 11],
                buf[pos + 12],
                buf[pos + 13],
                buf[pos + 14],
                buf[pos + 15],
                buf[pos + 16],
                buf[pos + 17],
                buf[pos + 18],
                buf[pos + 19],
                buf[pos + 20],
                buf[pos + 21],
                buf[pos + 22],
                buf[pos + 23],
                buf[pos + 24],
            ];
            let (scope_id, _) = match decode_u32_be(buf, pos + 25) {
                Ok(x) => x,
                Err(e) => return Err(e),
            };
            Ok((RakAddr::V6 { ip, port, flowinfo, scope_id }, pos + 29))
        } else {
            Err(DecodeError::UnexpectedEof)
        }
    } else {
        Err(DecodeError::InvalidAddrVersion(version))
    }
}

/// Length of an encoded address.
pub open spec fn addr_enc_len(a: RakAddr) -> int {
    match a {
        RakAddr::V4 { .. } => 7,
        RakAddr::V6 { .. } => 29,
    }
}

pub proof fn lemma_addr_round_trip(s: Seq<u8>, i: int, a: RakAddr)
    requires
        0 <= i,
        i + addr_enc_len(a) <= s.len(),
        s.subrange(i, i + addr_enc_len(a)) == enc_addr(a),
    ensures
        dec_addr(s, i) == Ok::<_, DecodeError>((a, i + addr_enc_len(a))),
{
    reveal(dec_addr);
    let n = addr_enc_len(a);
    let e = enc_addr(a);
    assert forall|k: int| 0 <= k < n implies #[trigger] e[k] == s[i + k] by {
        assert(s.subrange(i, i + n)[k] == s[i + k]);
    }
    match a {
        RakAddr::V4 { ip, port } => {
            assert(s.subrange(i + 5, i + 7) =~= enc_u16_be(port)) by {
                assert(e[5] == s[i + 5] && e[6] == s[i + 6]);
                assert(s.subrange(i + 5, i + 7)[0] == s[i + 5]);
                assert(s.subrange(i + 5, i + 7)[1] == s[i + 6]);
            }
            lemma_u16_be_round_trip(s, i + 5, port);
            assert(e[1] == s[i + 1] && e[2] == s[i + 2] && e[3] == s[i + 3] && e[4] == s[i + 4]);
            assert(e[0] == s[i]);
            assert(s[i] == 4);
            let d = dec_addr(s, i);
            assert(d is Ok);
            let (b, end) = d->Ok_0;
            match b {
                RakAddr::V4 { ip: dip, port: dport } => {
                    assert(dip@ =~= ip@);
                    vstd::array::axiom_array_ext_equal(dip, ip);
                    assert(b == a);
                },
                _ => {
                    assert(false);
                },
            }
        },
        RakAddr::V6 { ip, port, flowinfo, scope_id } => {
            assert forall|k: int| 0 <= k < 16 implies #[trigger] ip@[k] == s[i + 9 + k] by {
                assert(e[9 + k] == s[i + (9 + k)]);
            }
            assert(s.subrange(i + 3, i + 5) =~= enc_u16_be(port)) by {
                assert(e[3] == s[i + 3] && e[4] == s[i + 4]);
                assert(s.subrange(i + 3, i + 5)[0] == s[i + 3]);
                assert(s.subrange(i + 3, i + 5)[1] == s[i + 4]);
            }
            lemma_u16_be_round_trip(s, i + 3, port);
            assert(s.subrange(i + 5, i + 9) =~= enc_u32_be(flowinfo)) by {
                assert(e[5] == s[i + 5] && e[6] == s[i + 6] && e[7] == s[i + 7] && e[8] == s[i
                    + 8]);
                assert(s.subrange(i + 5, i + 9)[0] == s[i + 5]);
                assert(s.subrange(i + 5, i + 9)[1] == s[i + 6]);
                assert(s.subrange(i + 5, i + 9)[2] == s[i + 7]);
                assert(s.subrange(i + 5, i + 9)[3] == s[i + 8]);
            }
            lemma_u32_be_round_trip(s, i + 5, flowinfo);
            assert(s.subrange(i + 25, i + 29) =~= enc_u32_be(scope_id)) by {
                assert(e[25] == s[i + 25] && e[26] == s[i + 26] && e[27] == s[i + 27] && e[28]
                    == s[i + 28]);
                assert(s.subrange(i + 25, i + 29)[0] == s[i + 25]);
                assert(s.subrange(i + 25, i + 29)[1] == s[i + 26]);
                assert(s.subrange(i + 25, i + 29)[2] == s[i + 27]);
                assert(s.subrange(i + 25, i + 29)[3] == s[i + 28]);
            }
            lemma_u32_be_round_trip(s, i + 25, scope_id);
            assert(e[0] == s[i]);
            assert(s[i] == 6);
            let d = dec_addr(s, i);
            assert(d is Ok);
            let (b, end) = d->Ok_0;
            match b {
                RakAddr::V6 { ip: dip, .. } => {
                    assert(dip@ =~= ip@);
                    vstd::array::axiom_array_ext_equal(dip, ip);
                    assert(b == a);
                },
                _ => {
                    assert(false);
                },
            }
        },
    }
}

// ---------------------------------------------------------------------------
// RakNet time: u64 milliseconds, big-endian
// ---------------------------------------------------------------------------

pub open spec fn enc_time(v: u64) -> Seq<u8> {
    enc_u64_be(v)
}

pub open spec fn dec_time(s: Seq<u8>, i: int) -> Result<(u64, int), DecodeError> {
    dec_u64_be(s, i)
}

// ---------------------------------------------------------------------------
// End-of-buffer padding: zero bytes up to the end of the datagram
// ---------------------------------------------------------------------------

pub open spec fn enc_padding(n: nat) -> Seq<u8> {
    Seq::new(n, |k: int| 0u8)
}

/// Appends `n` zero bytes.
pub fn encode_padding(n: usize, out: &mut Vec<u8>)
    ensures
        final(out)@ == old(out)@ + enc_padding(n as nat),
{
    let mut k: usize = 0;
    while k < n
        invariant
            k <= n,
            out@ == old(out)@ + enc_padding(k as nat),
        decreases n - k,
    {
        out.push(0);
        assert(out@ =~= old(out)@ + enc_padding(k as nat + 1));
        k = k + 1;
    }
}

/// Consumes every remaining byte; returns how many there were.
pub fn decode_padding(buf: &Vec<u8>, pos: usize) -> (r: (usize, usize))
    requires
        pos <= buf@.len(),
    ensures
        r.0 == buf@.len() - pos,
        r.1 == buf@.len(),
{
    (buf.len() - pos, buf.len())
}

// ---------------------------------------------------------------------------
// Advertisement: optional u16-length-prefixed blob at end of buffer
// ---------------------------------------------------------------------------

pub open spec fn enc_advert(ad: Option<Seq<u8>>) -> Seq<u8> {
    match ad {
        Option::None => Seq::empty(),
        Option::Some(b) => if b.len() == 0 {
            Seq::empty()
        } else if b.len() <= 0xffff {
            enc_u16_be(b.len() as u16) + b
        } else {
            enc_u16_be(0xffff) + b.take(0xffff)
        },
    }
}

pub open spec fn dec_advert(s: Seq<u8>, i: int) -> Result<(Option<Seq<u8>>, int), DecodeError> {
    if i == s.len() {
        Ok((Option::None, i))
    } else {
        match dec_u16_be(s, i) {
            Ok((n, j)) => if j + n <= s.len() {
                Ok((Option::Some(s.subrange(j, j + n)), j + n))
            } else {
                Err(DecodeError::UnexpectedEof)
            },
            Err(e) => Err(e),
        }
    }
}

pub fn encode_advert(ad: &Option<Vec<u8>>, out: &mut Vec<u8>)
    ensures
        final(out)@ == old(out)@ + enc_advert(match ad {
            Option::Some(b) => Option::Some(b@),
            Option::None => Option::None,
        }),
{
    match ad {
        Option::None => {},
        Option::Some(b) => {
            if b.len() == 0 {
            } else if b.len() <= 0xffff {
                encode_u16_be(b.len() as u16, out);
                append_bytes(b, out);
            } else {
                encode_u16_be(0xffff, out);
                let mut k: usize = 0;
                let ghost mid = out@;
                while k < 0xffff
                    invariant
                        k <= 0xffff,
                        b@.len() > 0xffff,
                        out@ == mid + b@.take(k as int),
                    decreases 0xffff - k,
                {
                    out.push(b[k]);
                    assert(out@ =~= mid + b@.take(k as int + 1));
                    k = k + 1;
                }
            }
        },
    }
}

pub fn decode_advert(buf: &Vec<u8>, pos: usize) -> (r: Result<
    (Option<Vec<u8>>, usize),
    DecodeError,
>)
    requires
        pos <= buf@.len(),
    ensures
        match r {
            Ok((v, end)) => dec_advert(buf@, pos as int) == Ok::<_, DecodeError>(
                (
                    match v {
                        Option::Some(b) => Option::Some(b@),
                        Option::None => Option::None::<Seq<u8>>,
                    },
                    end as int,
                ),
            ) && pos <= end <= buf@.len(),
            Err(e) => dec_advert(buf@, pos as int) == Err::<(Option<Seq<u8>>, int), _>(e),
        },
{
    if pos == buf.len() {
        return Ok((None, pos));
    }
    let (n, j) = match decode_u16_be(buf, pos) {
        Ok(x) => x,
        Err(e) => return Err(e),
    };
    match read_bytes(buf, j, n as usize) {
        Ok((b, end)) => Ok((Some(b), end)),
        Err(_) => Err(DecodeError::UnexpectedEof),
    }
}

/// An advertisement that is absent or short enough round-trips when its bytes
/// end the buffer. An empty advertisement encodes as nothing at all, so it
/// decodes back as absent.
pub proof fn lemma_advert_round_trip(s: Seq<u8>, i: int, ad: Option<Seq<u8>>)
    requires
        0 <= i <= s.len(),
        match ad {
            Option::None => true,
            Option::Some(b) => 0 < b.len() <= 0xffff,
        },
        i + enc_advert(ad).len() == s.len(),
        s.subrange(i, s.len() as int) == enc_advert(ad),
    ensures
        dec_advert(s, i) == Ok::<_, DecodeError>((ad, s.len() as int)),
{
    match ad {
        Option::None => {},
        Option::Some(b) => {
            let e = enc_advert(ad);
            assert(s.subrange(i, i + 2) =~= enc_u16_be(b.len() as u16)) by {
                assert(s.subrange(i, i + e.len())[0] == s[i]);
                assert(s.subrange(i, i + e.len())[1] == s[i + 1]);
                assert(s.subrange(i, i + 2)[0] == s[i]);
                assert(s.subrange(i, i + 2)[1] == s[i + 1]);
            }
            lemma_u16_be_round_trip(s, i, b.len() as u16);
            assert(s.subrange(i + 2, i + 2 + b.len()) =~= b) by {
                assert forall|k: int| 0 <= k < b.len() implies #[trigger] b[k] == s[i + 2 + k] by {
                    assert(s.subrange(i, i + e.len())[2 + k] == s[i + (2 + k)]);
                    assert(e[2 + k] == b[k]);
                }
            }
        },
    }
}

// ---------------------------------------------------------------------------
// Named wire wrappers
// ---------------------------------------------------------------------------

/// A little-endian u16 (length and family fields).
pub struct U16LE(pub u16);

impl U16LE {
    pub fn encode_raknet(&self, out: &mut Vec<u8>)
        ensures
            final(out)@ == old(out)@ + enc_u16_le(self.0),
    {
        encode_u16_le(self.0, out);
    }

    pub fn decode_raknet(buf: &Vec<u8>, pos: usize) -> (r: Result<(U16LE, usize), DecodeError>)
        ensures
            match r {
                Ok((v, end)) => dec_u16_le(buf@, pos as int) == Ok::<_, DecodeError>(
                    (v.0, end as int),
                ),
                Err(e) => dec_u16_le(buf@, pos as int) == Err::<(u16, int), _>(e),
            },
    {
        match decode_u16_le(buf, pos) {
            Ok((v, end)) => Ok((U16LE(v), end)),
            Err(e) => Err(e),
        }
    }
}

/// A 3-byte little-endian u24 (sequence numbers).
pub struct U24LE(pub u32);

impl U24LE {
    pub fn encode_raknet(&self, out: &mut Vec<u8>)
        ensures
            final(out)@ == old(out)@ + enc_u24_le(self.0),
    {
        encode_u24_le(self.0, out);
    }

    pub fn decode_raknet(buf: &Vec<u8>, pos: usize) -> (r: Result<(U24LE, usize), DecodeError>)
        ensures
            match r {
                Ok((v, end)) => dec_u24_le(buf@, pos as int) == Ok::<_, DecodeError>(
                    (v.0, end as int),
                ) && v.0 < 0x1000000,
                Err(e) => dec_u24_le(buf@, pos as int) == Err::<(u32, int), _>(e),
            },
    {
        match decode_u24_le(buf, pos) {
            Ok((v, end)) => Ok((U24LE(v), end)),
            Err(e) => Err(e),
        }
    }
}

/// An unsigned LEB128 integer of at most 64 bits.
pub struct VarUInt(pub u64);

impl VarUInt {
    pub fn encode_raknet(&self, out: &mut Vec<u8>)
        ensures
            final(out)@ == old(out)@ + enc_varuint(self.0),
    {
        encode_varuint(self.0, out);
    }

    pub fn decode_raknet(buf: &Vec<u8>, pos: usize) -> (r: Result<(VarUInt, usize), DecodeError>)
        ensures
            match r {
                Ok((v, end)) => dec_varuint(buf@, pos as int) == Ok::<_, DecodeError>(
                    (v.0, end as int),
                ),
                Err(e) => dec_varuint(buf@, pos as int) == Err::<(u64, int), _>(e),
            },
    {
        match decode_varuint(buf, pos) {
            Ok((v, end)) => Ok((VarUInt(v), end)),
            Err(e) => Err(e),
        }
    }
}

/// A ZigZag-coded signed LEB128 integer.
pub struct VarInt(pub i64);

impl VarInt {
    pub fn encode_raknet(&self, out: &mut Vec<u8>)
        ensures
            final(out)@ == old(out)@ + enc_varint(self.0),
    {
        encode_varint(self.0, out);
    }

    pub fn decode_raknet(buf: &Vec<u8>, pos: usize) -> (r: Result<(VarInt, usize), DecodeError>)
        ensures
            match r {
                Ok((v, end)) => dec_varint(buf@, pos as int) == Ok::<_, DecodeError>(
                    (v.0, end as int),
                ),
                Err(e) => dec_varint(buf@, pos as int) == Err::<(i64, int), _>(e),
            },
    {
        match decode_varint(buf, pos) {
            Ok((v, end)) => Ok((VarInt(v), end)),
            Err(e) => Err(e),
        }
    }
}

/// Milliseconds since an arbitrary epoch, u64 big-endian on the wire.
#[derive(Clone, Copy, PartialEq, Eq, Structural, Debug)]
pub struct RaknetTime(pub u64);

impl RaknetTime {
    pub fn encode_raknet(&self, out: &mut Vec<u8>)
        ensures
            final(out)@ == old(out)@ + enc_time(self.0),
    {
        encode_u64_be(self.0, out);
    }

    pub fn decode_raknet(buf: &Vec<u8>, pos: usize) -> (r: Result<
        (RaknetTime, usize),
        DecodeError,
    >)
        ensures
            match r {
                Ok((v, end)) => dec_time(buf@, pos as int) == Ok::<_, DecodeError>(
                    (v.0, end as int),
                ),
                Err(e) => dec_time(buf@, pos as int) == Err::<(u64, int), _>(e),
            },
    {
        match decode_u64_be(buf, pos) {
            Ok((v, end)) => Ok((RaknetTime(v), end)),
            Err(e) => Err(e),
        }
    }
}

/// Padding that runs to the end of the buffer; holds the byte count.
pub struct EoBPadding(pub usize);

impl EoBPadding {
    pub fn encode_raknet(&self, out: &mut Vec<u8>)
        ensures
            final(out)@ == old(out)@ + enc_padding(self.0 as nat),
    {
        encode_padding(self.0, out);
    }

    pub fn decode_raknet(buf: &Vec<u8>, pos: usize) -> (r: (EoBPadding, usize))
        requires
            pos <= buf@.len(),
        ensures
            r.0.0 == buf@.len() - pos,
            r.1 == buf@.len(),
    {
        let (n, end) = decode_padding(buf, pos);
        (EoBPadding(n), end)
    }
}

/// The optional server advertisement blob.
pub struct Advertisement(pub Option<Vec<u8>>);

impl Advertisement {
    pub open spec fn view_opt(&self) -> Option<Seq<u8>> {
        match self.0 {
            Option::Some(b) => Option::Some(b@),
            Option::None => Option::None,
        }
    }

    pub fn encode_raknet(&self, out: &mut Vec<u8>)
        ensures
            final(out)@ == old(out)@ + enc_advert(self.view_opt()),
    {
        encode_advert(&self.0, out);
    }

    pub fn decode_raknet(buf: &Vec<u8>, pos: usize) -> (r: Result<
        (Advertisement, usize),
        DecodeError,
    >)
        requires
            pos <= buf@.len(),
        ensures
            match r {
                Ok((v, end)) => dec_advert(buf@, pos as int) == Ok::<_, DecodeError>(
                    (v.view_opt(), end as int),
                ),
                Err(e) => dec_advert(buf@, pos as int) == Err::<(Option<Seq<u8>>, int), _>(e),
            },
    {
        match decode_advert(buf, pos) {
            Ok((v, end)) => Ok((Advertisement(v), end)),
            Err(e) => Err(e),
        }
    }
}

} // verus!
