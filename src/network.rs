//! Common network types and error definitions.
use vstd::prelude::*;

verus! {

/// A four byte IPv4 address.
pub type IpAddress = [u8; 4];

/// A TCP/UDP network port.
pub type Port = u16;

/// A socket handle issued by the co-processor.
pub type Socket = u8;

/// The transport modes a client instance can be started in.
#[derive(Debug, Clone, Copy, PartialEq, Eq, Structural)]
pub enum TransportMode {
    /// TCP mode.
    Tcp,
    /// UDP mode.
    Udp,
    /// TLS mode.
    Tls,
    /// UDP multicast mode.
    UdpMulticast,
    /// TLS BearSSL mode.
    TlsBearSsl,
}

/// The byte that stands for a transport mode on the wire.
pub open spec fn mode_byte(mode: TransportMode) -> u8 {
    match mode {
        TransportMode::Tcp => 0,
        TransportMode::Udp => 1,
        TransportMode::Tls => 2,
        TransportMode::UdpMulticast => 3,
        TransportMode::TlsBearSsl => 4,
    }
}

impl TransportMode {
    /// The byte that stands for this mode on the wire.
    pub fn as_byte(&self) -> (r: u8)
        ensures
            r == mode_byte(*self),
    {
        match self {
            TransportMode::Tcp => 0,
            TransportMode::Udp => 1,
            TransportMode::Tls => 2,
            TransportMode::UdpMulticast => 3,
            TransportMode::TlsBearSsl => 4,
        }
    }
}

/// All TCP connection states a client or server instance can report.
#[derive(Debug, Clone, Copy, PartialEq, Eq, Structural)]
pub enum ConnectionState {
    /// Closed
    Closed,
    /// Listening
    Listening,
    /// SynSent
    SynSent,
    /// SynReceived
    SynReceived,
    /// Established
    Established,
    /// FinWait1
    FinWait1,
    /// FinWait2
    FinWait2,
    /// CloseWait
    CloseWait,
    /// Closing
    Closing,
    /// LastAck
    LastAck,
    /// TimeWait
    TimeWait,
}

/// The state a reported byte stands for; an unknown byte reads as `Closed`.
pub open spec fn connection_state_of(b: u8) -> ConnectionState {
    if b == 1 {
        ConnectionState::Listening
    } else if b == 2 {
        ConnectionState::SynSent
    } else if b == 3 {
        ConnectionState::SynReceived
    } else if b == 4 {
        ConnectionState::Established
    } else if b == 5 {
        ConnectionState::FinWait1
    } else if b == 6 {
        ConnectionState::FinWait2
    } else if b == 7 {
        ConnectionState::CloseWait
    } else if b == 8 {
        ConnectionState::Closing
    } else if b == 9 {
        ConnectionState::LastAck
    } else if b == 10 {
        ConnectionState::TimeWait
    } else {
        ConnectionState::Closed
    }
}

impl ConnectionState {
    /// Decodes a state byte reported by the firmware.
    pub fn from_byte(state: u8) -> (r: ConnectionState)
        ensures
            r == connection_state_of(state),
    {
        match state {
            1 => ConnectionState::Listening,
            2 => ConnectionState::SynSent,
            3 => ConnectionState::SynReceived,
            4 => ConnectionState::Established,
            5 => ConnectionState::FinWait1,
            6 => ConnectionState::FinWait2,
            7 => ConnectionState::CloseWait,
            8 => ConnectionState::Closing,
            9 => ConnectionState::LastAck,
            10 => ConnectionState::TimeWait,
            _ => ConnectionState::Closed,
        }
    }
}

impl From<u8> for ConnectionState {
    fn from(state: u8) -> (r: ConnectionState)
        ensures
            r == connection_state_of(state),
    {
        ConnectionState::from_byte(state)
    }
}

impl vstd::std_specs::convert::FromSpecImpl<u8> for ConnectionState {
    open spec fn obeys_from_spec() -> bool {
        true
    }

    open spec fn from_spec(state: u8) -> ConnectionState {
        connection_state_of(state)
    }
}

/// Errors that come from communication over the WiFi network.
#[derive(Debug, Clone, Copy, PartialEq, Eq, Structural)]
pub enum NetworkError {
    /// Failed to resolve a hostname.
    DnsResolveFailed,
    /// Timed out while trying to connect to a remote TCP server.
    ConnectionTimeout,
    /// Failed to connect to a remote TCP server.
    ConnectFailed,
    /// Failed to disconnect from a remote TCP server.
    DisconnectFailed,
}

} // verus!
