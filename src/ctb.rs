//! Cipher type bytes: the first byte of an OpenPGP packet, in its old
//! and new formats.

use vstd::prelude::*;
use crate::body_length::BodyLength;

verus! {

/// Why a cipher type byte could not be built.
#[derive(Debug, Clone, Copy, PartialEq, Eq, Structural)]
pub enum Error {
    /// The two bits of an old-format length type held this value, which
    /// names no length type.
    InvalidPacketLength(u8),
    /// Old-format packets carry tags 0 to 15 only.
    TagOutOfRange(u8),
    /// Old-format packets cannot have partial body lengths.
    PartialBodyLength,
}

/// What the new and the old format have in common.
#[derive(Debug, Clone, Copy, PartialEq, Eq, Structural)]
pub struct CTBCommon {
    /// The packet's tag.
    pub tag: u8,
}

/// A new-format cipher type byte.
#[derive(Debug, Clone, Copy, PartialEq, Eq, Structural)]
pub struct CTBNew {
    pub common: CTBCommon,
}

impl CTBNew {
    /// A new-format cipher type byte for packets with this tag.
    pub fn new(tag: u8) -> (r: Self)
        ensures
            r.common.tag == tag,
    {
        CTBNew { common: CTBCommon { tag } }
    }
}

/// How an old-format packet gives its body length.
#[derive(Debug, Clone, Copy, PartialEq, Eq, Structural)]
pub enum PacketLengthType {
    OneOctet,
    TwoOctets,
    FourOctets,
    Indeterminate,
}

/// The length type that the two bits `u` name, if any.
pub open spec fn length_type_of(u: u8) -> Option<PacketLengthType> {
    if u == 0 {
        Some(PacketLengthType::OneOctet)
    } else if u == 1 {
        Some(PacketLengthType::TwoOctets)
    } else if u == 2 {
        Some(PacketLengthType::FourOctets)
    } else if u == 3 {
        Some(PacketLengthType::Indeterminate)
    } else {
        None
    }
}

/// The two bits that name a length type.
pub open spec fn length_type_bits(l: PacketLengthType) -> u8 {
    match l {
        PacketLengthType::OneOctet => 0,
        PacketLengthType::TwoOctets => 1,
        PacketLengthType::FourOctets => 2,
        PacketLengthType::Indeterminate => 3,
    }
}

impl PacketLengthType {
    /// The length type that the two bits `u` name.
    pub fn try_from(u: u8) -> (r: Result<Self, Error>)
        ensures
            match length_type_of(u) {
                Some(l) => r == Ok::<Self, Error>(l),
                None => r == Err::<Self, Error>(Error::InvalidPacketLength(u)),
            },
    {
        match u {
            0 => Ok(PacketLengthType::OneOctet),
            1 => Ok(PacketLengthType::TwoOctets),
            2 => Ok(PacketLengthType::FourOctets),
            3 => Ok(PacketLengthType::Indeterminate),
            _ => Err(Error::InvalidPacketLength(u)),
        }
    }
}

impl From<PacketLengthType> for u8 {
    fn from(l: PacketLengthType) -> u8 {
        match l {
            PacketLengthType::OneOctet => 0,
            PacketLengthType::TwoOctets => 1,
            PacketLengthType::FourOctets => 2,
            PacketLengthType::Indeterminate => 3,
        }
    }
}

impl vstd::std_specs::convert::FromSpecImpl<PacketLengthType> for u8 {
    open spec fn obeys_from_spec() -> bool {
        true
    }

    open spec fn from_spec(l: PacketLengthType) -> u8 {
        length_type_bits(l)
    }
}

/// An old-format cipher type byte.
#[derive(Debug, Clone, Copy, PartialEq, Eq, Structural)]
pub struct CTBOld {
    pub common: CTBCommon,
    pub length_type: PacketLengthType,
}

/// The shortest old-format length type that can hold `length`, if any.
pub open spec fn old_length_type(length: BodyLength) -> Option<PacketLengthType> {
    match length {
        BodyLength::Full(l) => if l <= 0xff {
            Some(PacketLengthType::OneOctet)
        } else if l <= 0xffff {
            Some(PacketLengthType::TwoOctets)
        } else {
            Some(PacketLengthType::FourOctets)
        },
        BodyLength::Partial(_) => None,
        BodyLength::Indeterminate => Some(PacketLengthType::Indeterminate),
    }
}

impl CTBOld {
    /// An old-format cipher type byte for a packet with this tag and body
    /// length, using the shortest encoding of the length.
    pub fn new(tag: u8, length: BodyLength) -> (r: Result<Self, Error>)
        ensures
            tag > 15 ==> r == Err::<Self, Error>(Error::TagOutOfRange(tag)),
            tag <= 15 ==> match old_length_type(length) {
                Some(l) => r == Ok::<Self, Error>(
                    CTBOld { common: CTBCommon { tag }, length_type: l },
                ),
                None => r == Err::<Self, Error>(Error::PartialBodyLength),
            },
    {
        if tag > 15 {
            return Err(Error::TagOutOfRange(tag));
        }
        let length_type = match length {
            BodyLength::Full(l) => {
                if l <= 0xff {
                    PacketLengthType::OneOctet
                } else if l <= 0xffff {
                    PacketLengthType::TwoOctets
                } else {
                    PacketLengthType::FourOctets
                }
            },
            BodyLength::Partial(_) => {
                return Err(Error::PartialBodyLength);
            },
            BodyLength::Indeterminate => PacketLengthType::Indeterminate,
        };
        Ok(CTBOld { common: CTBCommon { tag }, length_type })
    }
}

/// A cipher type byte of either format.
#[derive(Debug, Clone, Copy, PartialEq, Eq, Structural)]
pub enum CTB {
    New(CTBNew),
    Old(CTBOld),
}

impl CTB {
    /// A new-format cipher type byte for packets with this tag.
    pub fn new(tag: u8) -> (r: Self)
        ensures
            r == CTB::New(CTBNew { common: CTBCommon { tag } }),
    {
        CTB::New(CTBNew::new(tag))
    }

    /// What both formats have in common.
    pub fn common(&self) -> (r: &CTBCommon)
        ensures
            r == match *self {
                CTB::New(c) => c.common,
                CTB::Old(c) => c.common,
            },
    {
        match self {
            CTB::New(c) => &c.common,
            CTB::Old(c) => &c.common,
        }
    }
}

} // verus!
