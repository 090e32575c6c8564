//! The command byte that opens every client request.
use vstd::prelude::*;
use core::convert::TryFrom;
use vstd::std_specs::convert::TryFromSpecImpl;

verus! {

/// A client request: read, write or remove a key.
#[derive(Debug, Clone, Copy, PartialEq, Eq, Structural)]
pub enum Command {
    Get,
    Put,
    Del,
}

/// The wire byte of each command: `1`, `2` and `3`.
pub open spec fn command_byte(c: Command) -> u8 {
    match c {
        Command::Get => 1u8,
        Command::Put => 2u8,
        Command::Del => 3u8,
    }
}

/// The command that a byte names, or the byte itself when it names none.
pub open spec fn command_from_byte(b: u8) -> Result<Command, u8> {
    if b == 1 {
        Ok(Command::Get)
    } else if b == 2 {
        Ok(Command::Put)
    } else if b == 3 {
        Ok(Command::Del)
    } else {
        Err(b)
    }
}

impl Command {
    /// The byte that stands for this command on the wire.
    pub fn to_byte(self) -> (b: u8)
        ensures
            b == command_byte(self),
    {
        match self {
            Command::Get => 1,
            Command::Put => 2,
            Command::Del => 3,
        }
    }
}

impl TryFrom<u8> for Command {
    type Error = u8;

    fn try_from(value: u8) -> (r: Result<Self, u8>) {
        if value == 1 {
            Ok(Command::Get)
        } else if value == 2 {
            Ok(Command::Put)
        } else if value == 3 {
            Ok(Command::Del)
        } else {
            Err(value)
        }
    }
}

impl TryFromSpecImpl<u8> for Command {
    open spec fn obeys_try_from_spec() -> bool {
        true
    }

    open spec fn try_from_spec(v: u8) -> Result<Self, u8> {
        command_from_byte(v)
    }
}

/// Every command survives the trip to its byte and back, and every byte
/// that names a command is that command's byte.
pub proof fn lemma_command_byte_roundtrip(c: Command, b: u8)
    ensures
        command_from_byte(command_byte(c)) == Ok::<Command, u8>(c),
        command_from_byte(b) matches Ok(d) ==> command_byte(d) == b,
{
}

} // verus!
