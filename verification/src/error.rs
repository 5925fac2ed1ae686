//! What can go wrong, and how it is worded.

use vstd::prelude::*;

use crate::text;

verus! {

/// What kind of failure a transport reports.
#[derive(Clone, Copy, Debug, PartialEq, Eq, Structural)]
pub enum IoErrorKind {
    TimedOut,
    WouldBlock,
    Other,
}

/// A failure of the transport.
#[derive(Clone, Copy, Debug, PartialEq, Eq, Structural)]
pub struct IoError {
    pub kind: IoErrorKind,
    /// The operating system's code for it, if there is one.
    pub os_code: Option<i32>,
}

/// Wire protocols that a probe can be asked for.
#[derive(Clone, Copy, Debug, PartialEq, Eq, Structural)]
pub enum WireProtocol {
    Swd,
    Jtag,
}

/// Why a probe could not be created.
#[derive(Clone, Copy, Debug, PartialEq, Eq, Structural)]
pub enum ProbeCreationError {
    NotFound,
    CouldNotOpen,
}

/// Errors of the programmer link.
#[derive(Clone, Copy, Debug, PartialEq, Eq, Structural)]
pub enum DebugProbeError {
    /// The transport failed.
    Usb(IoError),
    /// The programmer did not answer, or the flash stayed busy.
    Timeout,
    /// The probe only speaks SWD.
    UnsupportedProtocol(WireProtocol),
    ProbeCouldNotBeCreated(ProbeCreationError),
    /// A reply did not end in its CRC.
    InvalidCrc,
    /// A reply named another command than the request.
    UnexpectedCommand,
    /// The programmer answered with an error code.
    Programmer(u8),
    /// The reply to an activation did not end in its CRC.
    InvalidActivateCrc,
    /// The programmer answered an activation with an error code.
    ActivateFailed(u8),
    /// A flash status reply announced another length than one byte.
    FlashStatusLength,
    /// A flash page write of more bytes than a page holds.
    FlashBlockTooLarge(usize),
    /// The programmer wrote another number of bytes than it was given.
    FlashWriteLength { written: u16, expected: usize },
}

/// Operations that a TC32 core does not offer.
#[derive(Clone, Copy, Debug, PartialEq, Eq, Structural)]
pub enum Missing {
    WriteProgramCounter,
    WriteCoreRegister,
    ResetCatch,
}

/// Errors of a TC32 core.
#[derive(Clone, Copy, Debug, PartialEq, Eq, Structural)]
pub enum Error {
    /// The programmer link failed.
    Probe(DebugProbeError),
    Timeout,
    /// An access was not aligned to its width.
    MemoryNotAligned { address: u64, alignment: usize },
    /// An access runs past the end of the 64-bit address space.
    AddressOverflow,
    /// An address does not fit in 32 bits.
    AddressOutOfRange(u64),
    /// There is no such breakpoint unit.
    BreakpointOutOfRange(usize),
    /// There is no such register.
    UnknownRegister(u16),
    NotImplemented(Missing),
}

impl DebugProbeError {
    /// The wording of the errors that the programmer protocol defines; the
    /// other variants have none of their own.
    pub open spec fn spec_message(self) -> Option<Seq<char>> {
        match self {
            DebugProbeError::InvalidCrc => Some("invalid SWS programmer CRC"@),
            DebugProbeError::UnexpectedCommand => Some(
                "unexpected SWS programmer response command"@,
            ),
            DebugProbeError::Programmer(code) => Some(
                "SWS programmer returned error "@ + text::numeral(code as nat, 10),
            ),
            DebugProbeError::InvalidActivateCrc => Some("invalid SWS activate CRC"@),
            DebugProbeError::ActivateFailed(code) => Some(
                "SWS activate failed with error "@ + text::numeral(code as nat, 10),
            ),
            DebugProbeError::FlashStatusLength => Some(
                "unexpected SWS flash status response length"@,
            ),
            DebugProbeError::FlashBlockTooLarge(len) => Some(
                "SWS flash write block too large: "@ + text::numeral(len as nat, 10),
            ),
            DebugProbeError::FlashWriteLength { written, expected } => Some(
                "SWS programmer wrote "@ + text::numeral(written as nat, 10)
                    + " flash bytes instead of "@ + text::numeral(expected as nat, 10),
            ),
            _ => None,
        }
    }

    /// The wording of the error, where the protocol defines one.
    pub fn message(&self) -> (message: Option<String>)
        ensures
            message is Some == self.spec_message() is Some,
            message matches Some(words) ==> Some(words@) == self.spec_message(),
    {
        match *self {
            DebugProbeError::InvalidCrc => Some("invalid SWS programmer CRC".to_string()),
            DebugProbeError::UnexpectedCommand => Some(
                "unexpected SWS programmer response command".to_string(),
            ),
            DebugProbeError::Programmer(code) => Some(
                numbered("SWS programmer returned error ", code as u64),
            ),
            DebugProbeError::InvalidActivateCrc => Some("invalid SWS activate CRC".to_string()),
            DebugProbeError::ActivateFailed(code) => Some(
                numbered("SWS activate failed with error ", code as u64),
            ),
            DebugProbeError::FlashStatusLength => Some(
                "unexpected SWS flash status response length".to_string(),
            ),
            DebugProbeError::FlashBlockTooLarge(len) => Some(
                numbered("SWS flash write block too large: ", len as u64),
            ),
            DebugProbeError::FlashWriteLength { written, expected } => {
                let mut words = text::sentence(
                    "SWS programmer wrote ",
                    written as u64,
                    10,
                    " flash bytes instead of ",
                );
                let count = text::write_numeral(expected as u64, 10);
                words.append(count.as_str());
                Some(words)
            },
            _ => None,
        }
    }
}

impl Error {
    /// The wording of the errors that the TC32 core defines.
    pub open spec fn spec_message(self) -> Option<Seq<char>> {
        match self {
            Error::Probe(error) => error.spec_message(),
            Error::AddressOverflow => Some("TC32 memory address overflow"@),
            Error::AddressOutOfRange(address) => Some(
                "TC32 address 0x"@ + text::numeral(address as nat, 16) + " out of range"@,
            ),
            Error::BreakpointOutOfRange(unit) => Some(
                "TC32 breakpoint unit "@ + text::numeral(unit as nat, 10) + " out of range"@,
            ),
            Error::UnknownRegister(id) => Some(
                "Unknown TC32 register "@ + text::numeral(id as nat, 10),
            ),
            Error::NotImplemented(missing) => Some(
                match missing {
                    Missing::WriteProgramCounter => "TC32 write program counter"@,
                    Missing::WriteCoreRegister => "TC32 write core register"@,
                    Missing::ResetCatch => "TC32 reset catch"@,
                },
            ),
            _ => None,
        }
    }

    /// The wording of the error, where the core or the protocol defines one.
    pub fn message(&self) -> (message: Option<String>)
        ensures
            message is Some == self.spec_message() is Some,
            message matches Some(words) ==> Some(words@) == self.spec_message(),
    {
        match *self {
            Error::Probe(error) => error.message(),
            Error::AddressOverflow => Some("TC32 memory address overflow".to_string()),
            Error::AddressOutOfRange(address) => Some(
                text::sentence("TC32 address 0x", address, 16, " out of range"),
            ),
            Error::BreakpointOutOfRange(unit) => Some(
                text::sentence("TC32 breakpoint unit ", unit as u64, 10, " out of range"),
            ),
            Error::UnknownRegister(id) => Some(numbered("Unknown TC32 register ", id as u64)),
            Error::NotImplemented(missing) => Some(
                match missing {
                    Missing::WriteProgramCounter => "TC32 write program counter".to_string(),
                    Missing::WriteCoreRegister => "TC32 write core register".to_string(),
                    Missing::ResetCatch => "TC32 reset catch".to_string(),
                },
            ),
            _ => None,
        }
    }
}

/// Whether `text` is `n` in base `base`, without a leading zero.
pub open spec fn is_number(text: Seq<char>, n: int, base: nat) -> bool {
    &&& text::value(text, base) == n
    &&& text.len() > 0
    &&& text.len() > 1 ==> text[0] != '0'
    &&& forall|i: int| 0 <= i < text.len() ==> 0 <= text::digit_value(#[trigger] text[i]) < base
}

/// The wording of an error of the programmer link tells its numbers in decimal.
pub proof fn law_wording_tells_the_numbers(error: DebugProbeError)
    ensures
        error matches DebugProbeError::Programmer(code) ==> exists|n: Seq<char>|
            error.spec_message() == Some(#[trigger] ("SWS programmer returned error "@ + n))
                && is_number(n, code as int, 10),
        error matches DebugProbeError::ActivateFailed(code) ==> exists|n: Seq<char>|
            error.spec_message() == Some(#[trigger] ("SWS activate failed with error "@ + n))
                && is_number(n, code as int, 10),
        error matches DebugProbeError::FlashBlockTooLarge(len) ==> exists|n: Seq<char>|
            error.spec_message() == Some(#[trigger] ("SWS flash write block too large: "@ + n))
                && is_number(n, len as int, 10),
        error matches DebugProbeError::FlashWriteLength { written, expected } ==> exists|
            n: Seq<char>,
            m: Seq<char>,
        |
            error.spec_message() == Some(
                #[trigger] ("SWS programmer wrote "@ + n + " flash bytes instead of "@ + m),
            ) && is_number(n, written as int, 10) && is_number(m, expected as int, 10),
{
    match error {
        DebugProbeError::Programmer(code) => {
            let n = text::numeral(code as nat, 10);
            text::law_numeral_denotes_its_number(code as nat, 10);
            assert(error.spec_message() == Some("SWS programmer returned error "@ + n));
        },
        DebugProbeError::ActivateFailed(code) => {
            let n = text::numeral(code as nat, 10);
            text::law_numeral_denotes_its_number(code as nat, 10);
            assert(error.spec_message() == Some("SWS activate failed with error "@ + n));
        },
        DebugProbeError::FlashBlockTooLarge(len) => {
            let n = text::numeral(len as nat, 10);
            text::law_numeral_denotes_its_number(len as nat, 10);
            assert(error.spec_message() == Some("SWS flash write block too large: "@ + n));
        },
        DebugProbeError::FlashWriteLength { written, expected } => {
            let n = text::numeral(written as nat, 10);
            let m = text::numeral(expected as nat, 10);
            text::law_numeral_denotes_its_number(written as nat, 10);
            text::law_numeral_denotes_its_number(expected as nat, 10);
            assert(error.spec_message() == Some(
                "SWS programmer wrote "@ + n + " flash bytes instead of "@ + m,
            ));
        },
        _ => {},
    }
}

/// The wording of an error of a core tells an address in hexadecimal and the
/// other numbers in decimal; an error of the link is worded as it is.
pub proof fn law_core_wording_tells_the_numbers(error: Error)
    ensures
        error matches Error::Probe(inner) ==> error.spec_message() == inner.spec_message(),
        error matches Error::AddressOutOfRange(address) ==> exists|n: Seq<char>|
            error.spec_message() == Some(#[trigger] ("TC32 address 0x"@ + n + " out of range"@))
                && is_number(n, address as int, 16),
        error matches Error::BreakpointOutOfRange(unit) ==> exists|n: Seq<char>|
            error.spec_message() == Some(
                #[trigger] ("TC32 breakpoint unit "@ + n + " out of range"@),
            ) && is_number(n, unit as int, 10),
        error matches Error::UnknownRegister(id) ==> exists|n: Seq<char>|
            error.spec_message() == Some(#[trigger] ("Unknown TC32 register "@ + n)) && is_number(
                n,
                id as int,
                10,
            ),
{
    match error {
        Error::AddressOutOfRange(address) => {
            let n = text::numeral(address as nat, 16);
            text::law_numeral_denotes_its_number(address as nat, 16);
            assert(error.spec_message() == Some("TC32 address 0x"@ + n + " out of range"@));
        },
        Error::BreakpointOutOfRange(unit) => {
            let n = text::numeral(unit as nat, 10);
            text::law_numeral_denotes_its_number(unit as nat, 10);
            assert(error.spec_message() == Some("TC32 breakpoint unit "@ + n + " out of range"@));
        },
        Error::UnknownRegister(id) => {
            let n = text::numeral(id as nat, 10);
            text::law_numeral_denotes_its_number(id as nat, 10);
            assert(error.spec_message() == Some("Unknown TC32 register "@ + n));
        },
        _ => {},
    }
}

/// `words` followed by `n` in decimal.
fn numbered(words: &str, n: u64) -> (message: String)
    ensures
        message@ == words@ + text::numeral(n as nat, 10),
{
    let mut message = words.to_string();
    let number = text::write_numeral(n, 10);
    message.append(number.as_str());
    message
}

} // verus!
