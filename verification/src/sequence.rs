//! 24-bit wrapping sequence numbers.
//!
//! Datagram sequence numbers and all reliability/ordering indices live in a
//! space of 2^24 values with wrapping successor and predecessor. Comparison is
//! signed in the half-space: `b` is after `a` iff `(b - a) mod 2^24` lies in
//! `(0, 2^23)`. The pairs at distance exactly `2^23` are incomparable in this
//! ordering; `partial_cmp` orders every other pair.

use vstd::prelude::*;

use crate::codec::{enc_u24_le, dec_u24_le, decode_u24_le, encode_u24_le, DecodeError};

verus! {

/// Number of values in the sequence space.
pub const SEQ_MODULO: u32 = 0x1000000;

/// Largest sequence value.
pub const SEQ_MASK: u32 = 0xffffff;

/// Half of the sequence space; the comparison horizon.
pub const SEQ_HALF: u32 = 0x800000;

/// A 24-bit wrapping sequence number.
#[derive(Clone, Copy, PartialEq, Eq, Structural, Debug, Hash)]
pub struct Sequence24(pub u32);

/// The value `b` lies strictly after `a` in the wrapping order.
pub open spec fn seq_after(b: u32, a: u32) -> bool {
    0 < (b % 0x1000000 + 0x1000000 - a % 0x1000000) % 0x1000000 < 0x800000
}

impl Sequence24 {
    /// A sequence number is stored reduced below 2^24.
    pub open spec fn wf(self) -> bool {
        self.0 < 0x1000000
    }

    pub fn new(v: u32) -> (r: Sequence24)
        ensures
            r.0 == v % 0x1000000,
            r.wf(),
    {
        Sequence24(v % 0x1000000)
    }

    pub fn value(&self) -> (r: u32)
        ensures
            r == self.0 % 0x1000000,
            r < 0x1000000,
    {
        self.0 % 0x1000000
    }

    /// The successor, wrapping from 2^24 - 1 back to 0.
    pub fn next(&self) -> (r: Sequence24)
        ensures
            r.0 == (self.0 % 0x1000000 + 1) % 0x1000000,
            r.wf(),
    {
        let x = self.0 % 0x1000000;
        if x == 0xffffff {
            Sequence24(0)
        } else {
            Sequence24(x + 1)
        }
    }

    /// The predecessor, wrapping from 0 back to 2^24 - 1.
    pub fn prev(&self) -> (r: Sequence24)
        ensures
            r.0 == (self.0 % 0x1000000 + 0xffffff) % 0x1000000,
            r.wf(),
    {
        let x = self.0 % 0x1000000;
        if x == 0 {
            Sequence24(0xffffff)
        } else {
            Sequence24(x - 1)
        }
    }

    /// True iff `self` lies strictly after `other` in the wrapping order.
    pub fn after(&self, other: &Sequence24) -> (r: bool)
        ensures
            r == seq_after(self.0, other.0),
    {
        let a = self.0 % 0x1000000;
        let b = other.0 % 0x1000000;
        let d = (a + 0x1000000 - b) % 0x1000000;
        0 < d && d < 0x800000
    }

    /// Wrapping distance from `other` up to `self`.
    pub fn diff(&self, other: &Sequence24) -> (r: u32)
        ensures
            r == (self.0 % 0x1000000 + 0x1000000 - other.0 % 0x1000000) % 0x1000000,
            r < 0x1000000,
    {
        (self.0 % 0x1000000 + 0x1000000 - other.0 % 0x1000000) % 0x1000000
    }

    pub fn encode_raknet(&self, out: &mut Vec<u8>)
        ensures
            final(out)@ == old(out)@ + enc_u24_le(self.0),
    {
        encode_u24_le(self.0, out);
    }

    pub fn decode_raknet(buf: &Vec<u8>, pos: usize) -> (r: Result<
        (Sequence24, usize),
        DecodeError,
    >)
        ensures
            match r {
                Ok((v, end)) => dec_u24_le(buf@, pos as int) == Ok::<_, DecodeError>(
                    (v.0, end as int),
                ) && v.wf(),
                Err(e) => dec_u24_le(buf@, pos as int) == Err::<(u32, int), _>(e),
            },
    {
        match decode_u24_le(buf, pos) {
            Ok((v, end)) => Ok((Sequence24(v), end)),
            Err(e) => Err(e),
        }
    }
}

/// What `partial_cmp` on sequence numbers means: equal values are `Equal`,
/// otherwise whichever lies after the other in the half-space wins; the pair
/// at distance exactly 2^23 is incomparable.
pub open spec fn seq_cmp(a: u32, b: u32) -> Option<core::cmp::Ordering> {
    if a % 0x1000000 == b % 0x1000000 {
        Some(core::cmp::Ordering::Equal)
    } else if seq_after(b, a) {
        Some(core::cmp::Ordering::Less)
    } else if seq_after(a, b) {
        Some(core::cmp::Ordering::Greater)
    } else {
        None
    }
}

impl PartialOrd for Sequence24 {
    fn partial_cmp(&self, other: &Sequence24) -> (r: Option<core::cmp::Ordering>) {
        let a = self.0 % 0x1000000;
        let b = other.0 % 0x1000000;
        if a == b {
            Some(core::cmp::Ordering::Equal)
        } else {
            let d = (b + 0x1000000 - a) % 0x1000000;
            if 0 < d && d < 0x800000 {
                Some(core::cmp::Ordering::Less)
            } else if d == 0x800000 {
                None
            } else {
                Some(core::cmp::Ordering::Greater)
            }
        }
    }
}

impl vstd::std_specs::cmp::PartialOrdSpecImpl for Sequence24 {
    open spec fn obeys_partial_cmp_spec() -> bool {
        true
    }

    open spec fn partial_cmp_spec(&self, other: &Sequence24) -> Option<core::cmp::Ordering> {
        seq_cmp(self.0, other.0)
    }
}

/// Stepping forward then back, or back then forward, returns to the start.
pub proof fn lemma_seq24_next_prev(x: Sequence24)
    requires
        x.wf(),
    ensures
        ((x.0 % 0x1000000 + 1) % 0x1000000 + 0xffffff) % 0x1000000 == x.0,
        ((x.0 % 0x1000000 + 0xffffff) % 0x1000000 + 1) % 0x1000000 == x.0,
{
}

/// The wrap comparison is antisymmetric wherever it compares at all: swapping
/// the arguments flips `Less` and `Greater` and keeps `Equal`. The pairs at
/// wrapping distance exactly 2^23 compare as `None` in both directions.
pub proof fn lemma_seq24_cmp_antisymmetric(x: Sequence24, y: Sequence24)
    ensures
        seq_cmp(x.0, y.0) == Some(core::cmp::Ordering::Less) <==> seq_cmp(y.0, x.0) == Some(
            core::cmp::Ordering::Greater,
        ),
        seq_cmp(x.0, y.0) == Some(core::cmp::Ordering::Equal) <==> seq_cmp(y.0, x.0) == Some(
            core::cmp::Ordering::Equal,
        ),
        seq_cmp(x.0, y.0) is None <==> seq_cmp(y.0, x.0) is None,
{
    let a = x.0 % 0x1000000;
    let b = y.0 % 0x1000000;
    let d1 = (b % 0x1000000 + 0x1000000 - a % 0x1000000) % 0x1000000;
    let d2 = (a % 0x1000000 + 0x1000000 - b % 0x1000000) % 0x1000000;
    assert(a < 0x1000000 && b < 0x1000000);
    assert(d1 == (b + 0x1000000 - a) % 0x1000000);
    assert(d2 == (a + 0x1000000 - b) % 0x1000000);
    if a == b {
    } else {
        assert(d1 != 0 && d2 != 0);
        assert(d1 + d2 == 0x1000000);
    }
}

/// The sequence just after the wrap point compares above the one just before
/// it: the successor of 2^24 - 1 is 0, and 1 lies after 0.
pub proof fn lemma_seq24_wrap_order()
    ensures
        seq_cmp(((0xffffffu32 % 0x1000000 + 1) % 0x1000000) as u32, ((0u32 % 0x1000000 + 1)
            % 0x1000000) as u32) == Some(core::cmp::Ordering::Less),
{
}

} // verus!
