//! WiFi network functions: join, leave, status, DNS.
use vstd::prelude::*;
use vstd::string::*;

use crate::gpio::{DelayMs, EspControlInterface};
use crate::network::IpAddress;
use crate::protocol::too_large;
use crate::spi::{
    dns2_bytes, field, first_byte, lookup_done, outcome, performed, response_buffer, unit_result,
    BusEvent, ByteTransfer, NinaProtocolHandler,
};
use crate::protocol::NinaCommand;
use crate::{version_of, Error, FirmwareVersion};

verus! {

/// The WiFi network connection status.
#[derive(Debug, Clone, Copy, PartialEq, Eq, Structural)]
pub enum ConnectionStatus {
    /// Idle, not yet associated.
    Idle,
    /// No device is connected to the hardware.
    NoEsp32,
    /// No SSID is available.
    NoActiveSsid,
    /// A network scan has finished.
    ScanCompleted,
    /// Connected to a network.
    Connected,
    /// Failed to connect to a network.
    Failed,
    /// Lost the connection to a network.
    Lost,
    /// Disconnected from a network.
    Disconnected,
    /// Listening for connections in access point mode.
    ApListening,
    /// Connected in access point mode.
    ApConnected,
    /// Failed to connect in access point mode.
    ApFailed,
    /// An unexpected value; a reset may be required.
    Invalid,
}

/// The status a reported byte stands for: 255 is `NoEsp32`, an unknown
/// byte is `Invalid`.
pub open spec fn connection_status_of(b: u8) -> ConnectionStatus {
    if b == 0 {
        ConnectionStatus::Idle
    } else if b == 1 {
        ConnectionStatus::NoActiveSsid
    } else if b == 2 {
        ConnectionStatus::ScanCompleted
    } else if b == 3 {
        ConnectionStatus::Connected
    } else if b == 4 {
        ConnectionStatus::Failed
    } else if b == 5 {
        ConnectionStatus::Lost
    } else if b == 6 {
        ConnectionStatus::Disconnected
    } else if b == 7 {
        ConnectionStatus::ApListening
    } else if b == 8 {
        ConnectionStatus::ApConnected
    } else if b == 9 {
        ConnectionStatus::ApFailed
    } else if b == 255 {
        ConnectionStatus::NoEsp32
    } else {
        ConnectionStatus::Invalid
    }
}

impl ConnectionStatus {
    /// Decodes a status byte reported by the firmware.
    pub fn from_byte(status: u8) -> (r: ConnectionStatus)
        ensures
            r == connection_status_of(status),
    {
        match status {
            0 => ConnectionStatus::Idle,
            1 => ConnectionStatus::NoActiveSsid,
            2 => ConnectionStatus::ScanCompleted,
            3 => ConnectionStatus::Connected,
            4 => ConnectionStatus::Failed,
            5 => ConnectionStatus::Lost,
            6 => ConnectionStatus::Disconnected,
            7 => ConnectionStatus::ApListening,
            8 => ConnectionStatus::ApConnected,
            9 => ConnectionStatus::ApFailed,
            255 => ConnectionStatus::NoEsp32,
            _ => ConnectionStatus::Invalid,
        }
    }
}

impl From<u8> for ConnectionStatus {
    fn from(status: u8) -> (r: ConnectionStatus)
        ensures
            r == connection_status_of(status),
    {
        ConnectionStatus::from_byte(status)
    }
}

impl vstd::std_specs::convert::FromSpecImpl<u8> for ConnectionStatus {
    open spec fn obeys_from_spec() -> bool {
        true
    }

    open spec fn from_spec(status: u8) -> ConnectionStatus {
        connection_status_of(status)
    }
}


/// A driver for one co-processor: the owner of its bus and control lines.
pub struct Wifi<B, C> {
    /// The protocol engine.
    pub protocol_handler: NinaProtocolHandler<B, C>,
}

impl<B: ByteTransfer, C: EspControlInterface> Wifi<B, C> {
    /// The bus events performed so far.
    pub open spec fn wire(&self) -> Seq<BusEvent> {
        self.protocol_handler.transcript()
    }

    /// Wraps an engine.
    pub fn build(protocol_handler: NinaProtocolHandler<B, C>) -> (r: Self)
        ensures
            r.protocol_handler == protocol_handler,
    {
        Wifi { protocol_handler }
    }

    /// Puts the co-processor in a known good state: the control lines idle,
    /// then a reset.
    pub fn init<D: DelayMs>(spi: B, esp32_control_pins: C, delay: &mut D) -> (r: Result<Self, Error>)
        ensures
            r matches Ok(w) && w.wire() == Seq::<BusEvent>::empty(),
    {
        let mut wifi = Wifi { protocol_handler: NinaProtocolHandler::new(spi, esp32_control_pins) };
        wifi.protocol_handler.init();
        wifi.protocol_handler.reset(delay);
        Ok(wifi)
    }

    /// Queries the firmware version (e.g. 1.7.4).
    pub fn firmware_version(&mut self) -> (r: Result<FirmwareVersion, Error>)
        ensures
            performed(old(self).wire(), final(self).wire(), NinaCommand::GetFwVersion, seq![], false),
            r == match outcome(old(self).wire(), final(self).wire(), NinaCommand::GetFwVersion, seq![], false) {
                Ok(p) => Ok(version_of(response_buffer(p))),
                Err(e) => Err(Error::Protocol(e)),
            },
    {
        self.protocol_handler.get_fw_version()
    }

    /// Joins the network `ssid` with `passphrase`.
    pub fn join(&mut self, ssid: &str, passphrase: &str) -> (r: Result<(), Error>)
        ensures
            ssid.spec_bytes().len() > 255 || passphrase.spec_bytes().len() > 255 ==> r == Err::<(), Error>(too_large())
                && final(self).wire() == old(self).wire(),
            ssid.spec_bytes().len() <= 255 && passphrase.spec_bytes().len() <= 255 ==> {
                let params = seq![field(1, ssid.spec_bytes()), field(1, passphrase.spec_bytes())];
                &&& performed(old(self).wire(), final(self).wire(), NinaCommand::SetPassphrase, params, false)
                &&& r == unit_result(outcome(old(self).wire(), final(self).wire(), NinaCommand::SetPassphrase, params, false))
            },
    {
        self.protocol_handler.set_passphrase(ssid, passphrase)
    }

    /// Leaves the joined network.
    pub fn leave(&mut self) -> (r: Result<(), Error>)
        ensures
            performed(old(self).wire(), final(self).wire(), NinaCommand::Disconnect, seq![field(1, seq![0xFFu8])], false),
            r == unit_result(outcome(old(self).wire(), final(self).wire(), NinaCommand::Disconnect, seq![field(1, seq![0xFFu8])], false)),
    {
        self.protocol_handler.disconnect()
    }

    /// Queries the WiFi connection status.
    pub fn get_connection_status(&mut self) -> (r: Result<ConnectionStatus, Error>)
        ensures
            performed(old(self).wire(), final(self).wire(), NinaCommand::GetConnStatus, seq![], false),
            r == match outcome(old(self).wire(), final(self).wire(), NinaCommand::GetConnStatus, seq![], false) {
                Ok(p) => Ok(connection_status_of(first_byte(p))),
                Err(e) => Err(Error::Protocol(e)),
            },
    {
        self.protocol_handler.get_conn_status()
    }

    /// Sets one or two DNS servers used for hostname resolution.
    pub fn set_dns(&mut self, dns1: IpAddress, dns2: Option<IpAddress>) -> (r: Result<(), Error>)
        ensures
            ({
                let params = seq![field(1, seq![1u8]), field(1, dns1@), field(1, dns2_bytes(dns2))];
                &&& performed(old(self).wire(), final(self).wire(), NinaCommand::SetDNSConfig, params, false)
                &&& r == unit_result(outcome(old(self).wire(), final(self).wire(), NinaCommand::SetDNSConfig, params, false))
            }),
    {
        self.protocol_handler.set_dns_config(dns1, dns2)
    }

    /// Resolves `hostname` through the configured DNS servers.
    pub fn resolve(&mut self, hostname: &str) -> (r: Result<IpAddress, Error>)
        ensures
            hostname.spec_bytes().len() > 255 ==> r == Err::<IpAddress, Error>(too_large()) && final(self).wire() == old(self).wire(),
            hostname.spec_bytes().len() <= 255 ==> lookup_done(old(self).wire(), final(self).wire(), hostname.spec_bytes(), r),
    {
        self.protocol_handler.resolve(hostname)
    }

    /// Gives back the bus.
    pub fn destroy(self) -> (r: B)
        ensures
            r == self.protocol_handler.bus_view(),
    {
        self.protocol_handler.into_bus()
    }
}

} // verus!
