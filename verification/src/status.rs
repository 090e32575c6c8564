//! The status byte that opens every response of the cache server.
use vstd::prelude::*;
use core::convert::TryFrom;
use vstd::std_specs::convert::TryFromSpecImpl;

verus! {

/// Outcome of a cache request, as carried in the first byte of a response.
#[derive(Debug, PartialEq, Eq, Structural, Clone, Copy)]
pub enum Status {
    Success,
    NotFound,
    Error,
}

/// The wire byte of each status: `0x00`, `0x01` and `0xFF`.
pub open spec fn status_byte(s: Status) -> u8 {
    match s {
        Status::Success => 0x00u8,
        Status::NotFound => 0x01u8,
        Status::Error => 0xFFu8,
    }
}

/// The status that a byte names, or the byte itself when it names none.
pub open spec fn status_from_byte(b: u8) -> Result<Status, u8> {
    if b == 0x00 {
        Ok(Status::Success)
    } else if b == 0x01 {
        Ok(Status::NotFound)
    } else if b == 0xFF {
        Ok(Status::Error)
    } else {
        Err(b)
    }
}

impl Status {
    /// The byte that stands for this status on the wire.
    pub fn to_byte(self) -> (b: u8)
        ensures
            b == status_byte(self),
    {
        match self {
            Status::Success => 0x00,
            Status::NotFound => 0x01,
            Status::Error => 0xFF,
        }
    }
}

impl TryFrom<u8> for Status {
    type Error = u8;

    fn try_from(value: u8) -> (r: Result<Self, u8>) {
        if value == 0x00 {
            Ok(Status::Success)
        } else if value == 0x01 {
            Ok(Status::NotFound)
        } else if value == 0xFF {
            Ok(Status::Error)
        } else {
            Err(value)
        }
    }
}

impl TryFromSpecImpl<u8> for Status {
    open spec fn obeys_try_from_spec() -> bool {
        true
    }

    open spec fn try_from_spec(v: u8) -> Result<Self, u8> {
        status_from_byte(v)
    }
}

/// Every status survives the trip to its byte and back, and every byte
/// that names a status is that status's byte.
pub proof fn lemma_status_byte_roundtrip(s: Status, b: u8)
    ensures
        status_from_byte(status_byte(s)) == Ok::<Status, u8>(s),
        status_from_byte(b) matches Ok(t) ==> status_byte(t) == b,
{
}

} // verus!
