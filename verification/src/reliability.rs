//! Reliability classes of encapsulated packets and send priorities.

use vstd::prelude::*;

use crate::codec::DecodeError;

verus! {

/// The seven RakNet reliability classes, numbered 0 through 6 on the wire.
#[derive(Clone, Copy, PartialEq, Eq, Structural, Debug)]
pub enum Reliability {
    Unreliable,
    UnreliableSequenced,
    Reliable,
    ReliableOrdered,
    ReliableSequenced,
    UnreliableWithAckReceipt,
    ReliableWithAckReceipt,
}

/// Send priority; higher priorities drain first at flush.
#[derive(Clone, Copy, PartialEq, Eq, Structural, Debug)]
pub enum RakPriority {
    Immediate,
    High,
    Normal,
    Low,
}

pub open spec fn rel_to_u8(r: Reliability) -> u8 {
    match r {
        Reliability::Unreliable => 0,
        Reliability::UnreliableSequenced => 1,
        Reliability::Reliable => 2,
        Reliability::ReliableOrdered => 3,
        Reliability::ReliableSequenced => 4,
        Reliability::UnreliableWithAckReceipt => 5,
        Reliability::ReliableWithAckReceipt => 6,
    }
}

pub open spec fn rel_from_u8(v: u8) -> Option<Reliability> {
    if v == 0 {
        Some(Reliability::Unreliable)
    } else if v == 1 {
        Some(Reliability::UnreliableSequenced)
    } else if v == 2 {
        Some(Reliability::Reliable)
    } else if v == 3 {
        Some(Reliability::ReliableOrdered)
    } else if v == 4 {
        Some(Reliability::ReliableSequenced)
    } else if v == 5 {
        Some(Reliability::UnreliableWithAckReceipt)
    } else if v == 6 {
        Some(Reliability::ReliableWithAckReceipt)
    } else {
        None
    }
}

pub open spec fn spec_is_reliable(r: Reliability) -> bool {
    match r {
        Reliability::Reliable
        | Reliability::ReliableOrdered
        | Reliability::ReliableSequenced
        | Reliability::ReliableWithAckReceipt => true,
        _ => false,
    }
}

pub open spec fn spec_is_sequenced(r: Reliability) -> bool {
    match r {
        Reliability::UnreliableSequenced | Reliability::ReliableSequenced => true,
        _ => false,
    }
}

pub open spec fn spec_is_ordered(r: Reliability) -> bool {
    r == Reliability::ReliableOrdered
}

impl Reliability {
    pub fn to_u8(&self) -> (r: u8)
        ensures
            r == rel_to_u8(*self),
            r < 7,
    {
        match self {
            Reliability::Unreliable => 0,
            Reliability::UnreliableSequenced => 1,
            Reliability::Reliable => 2,
            Reliability::ReliableOrdered => 3,
            Reliability::ReliableSequenced => 4,
            Reliability::UnreliableWithAckReceipt => 5,
            Reliability::ReliableWithAckReceipt => 6,
        }
    }

    pub fn from_u8(v: u8) -> (r: Result<Reliability, DecodeError>)
        ensures
            match r {
                Ok(rel) => rel_from_u8(v) == Some(rel),
                Err(e) => rel_from_u8(v) is None && (e matches DecodeError::UnknownReliability(b)
                    && b == v),
            },
    {
        match v {
            0 => Ok(Reliability::Unreliable),
            1 => Ok(Reliability::UnreliableSequenced),
            2 => Ok(Reliability::Reliable),
            3 => Ok(Reliability::ReliableOrdered),
            4 => Ok(Reliability::ReliableSequenced),
            5 => Ok(Reliability::UnreliableWithAckReceipt),
            6 => Ok(Reliability::ReliableWithAckReceipt),
            _ => Err(DecodeError::UnknownReliability(v)),
        }
    }

    pub fn is_reliable(&self) -> (r: bool)
        ensures
            r == spec_is_reliable(*self),
    {
        match self {
            Reliability::Reliable
            | Reliability::ReliableOrdered
            | Reliability::ReliableSequenced
            | Reliability::ReliableWithAckReceipt => true,
            _ => false,
        }
    }

    pub fn is_sequenced(&self) -> (r: bool)
        ensures
            r == spec_is_sequenced(*self),
    {
        match self {
            Reliability::UnreliableSequenced | Reliability::ReliableSequenced => true,
            _ => false,
        }
    }

    pub fn is_ordered(&self) -> (r: bool)
        ensures
            r == spec_is_ordered(*self),
    {
        match self {
            Reliability::ReliableOrdered => true,
            _ => false,
        }
    }
}

/// The seven wire values map back to the classes that produced them.
pub proof fn lemma_reliability_round_trip(r: Reliability)
    ensures
        rel_from_u8(rel_to_u8(r)) == Some(r),
{
}

} // verus!
