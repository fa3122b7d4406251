//! Driver for an ESP32-WROOM WiFi co-processor running NINA firmware.
//!
//! The host talks to the co-processor over a byte-wide serial bus using the
//! NINA command/response protocol. This crate holds the parameter codec, the
//! command framing and response parsing engine, the per-command facade and
//! the TCP connection state machine. The bus, the control lines and the delay
//! source are supplied by the caller through the traits in [`gpio`] and
//! [`spi`].
use vstd::prelude::*;

pub mod gpio;
pub mod network;
pub mod protocol;
pub mod spi;
pub mod tcp_client;
pub mod wifi;

use crate::network::NetworkError;
use crate::protocol::ProtocolError;

verus! {

/// Number of bytes of a response buffer that hold a firmware version.
pub const ARRAY_LENGTH_PLACEHOLDER: usize = 8;

/// Highest level error type of this crate.
#[derive(Debug, Clone, Copy, PartialEq, Eq, Structural)]
pub enum Error {
    /// Transport-level failure of the bus.
    Bus,
    /// Protocol error in communicating with the co-processor.
    Protocol(ProtocolError),
    /// Network related error.
    Network(NetworkError),
}

impl From<ProtocolError> for Error {
    fn from(err: ProtocolError) -> (r: Error)
        ensures
            r == Error::Protocol(err),
    {
        Error::Protocol(err)
    }
}

impl vstd::std_specs::convert::FromSpecImpl<ProtocolError> for Error {
    open spec fn obeys_from_spec() -> bool {
        true
    }

    open spec fn from_spec(err: ProtocolError) -> Error {
        Error::Protocol(err)
    }
}

impl From<NetworkError> for Error {
    fn from(err: NetworkError) -> (r: Error)
        ensures
            r == Error::Network(err),
    {
        Error::Network(err)
    }
}

impl vstd::std_specs::convert::FromSpecImpl<NetworkError> for Error {
    open spec fn obeys_from_spec() -> bool {
        true
    }

    open spec fn from_spec(err: NetworkError) -> Error {
        Error::Network(err)
    }
}

/// A structured representation of a firmware version number (e.g. 1.7.4).
#[derive(Debug, Default, Clone, Copy, PartialEq, Eq, Structural)]
pub struct FirmwareVersion {
    /// Major version byte.
    pub major: u8,
    /// Minor version byte.
    pub minor: u8,
    /// Patch version byte.
    pub patch: u8,
}

/// The version held in a response buffer: the bytes at offsets 0, 2 and 4;
/// the separators at the odd offsets are discarded.
pub open spec fn version_of(bytes: Seq<u8>) -> FirmwareVersion {
    FirmwareVersion { major: bytes[0], minor: bytes[2], patch: bytes[4] }
}

impl FirmwareVersion {
    /// Builds a version from the first bytes of a firmware response.
    pub fn new(version: [u8; ARRAY_LENGTH_PLACEHOLDER]) -> (r: FirmwareVersion)
        ensures
            r == version_of(version@),
    {
        Self::parse(version)
    }

    /// Takes the bytes at offsets 0, 2 and 4 of `version` (e.g. `1.7.4`).
    fn parse(version: [u8; ARRAY_LENGTH_PLACEHOLDER]) -> (r: FirmwareVersion)
        ensures
            r == version_of(version@),
    {
        FirmwareVersion { major: version[0], minor: version[2], patch: version[4] }
    }
}

} // verus!
