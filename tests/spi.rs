#![allow(dead_code)]

use esp32_wroom_rp::gpio::{DelayMs, EspControlInterface};
use esp32_wroom_rp::spi::ByteTransfer;

/// A bus that checks each byte the host sends against a script and answers
/// with the scripted reply.
struct ScriptedBus {
    script: Vec<(u8, u8)>,
    position: usize,
    mismatches: usize,
    sent: Vec<u8>,
}

impl ScriptedBus {
    fn new(script: Vec<(u8, u8)>) -> ScriptedBus {
        ScriptedBus { script, position: 0, mismatches: 0, sent: Vec::new() }
    }

    fn done(&self) {
        assert_eq!(self.mismatches, 0, "bytes sent: {:02x?}", self.sent);
        assert_eq!(self.position, self.script.len(), "bytes sent: {:02x?}", self.sent);
    }
}

impl ByteTransfer for ScriptedBus {
    fn transfer(&mut self, word: u8) -> u8 {
        self.sent.push(word);
        match self.script.get(self.position) {
            Some(&(expected, reply)) => {
                self.position += 1;
                if expected != word {
                    self.mismatches += 1;
                }
                reply
            }
            None => {
                self.mismatches += 1;
                0
            }
        }
    }
}

struct EspControlMock {}

impl EspControlInterface for EspControlMock {
    fn init(&mut self) {}

    fn reset<D: DelayMs>(&mut self, _delay: &mut D) {}

    fn esp_select(&mut self) {}

    fn esp_deselect(&mut self) {}

    fn get_esp_ready(&self) -> bool {
        true
    }

    fn get_esp_ack(&self) -> bool {
        true
    }

    fn wait_for_esp_ready(&self) {}

    fn wait_for_esp_ack(&self) {}

    fn wait_for_esp_select(&mut self) {}
}

struct MockNoop {}

impl DelayMs for MockNoop {
    fn delay_ms(&mut self, _ms: u16) {}
}

fn mock_command(command_byte: u8, number_of_params: u8) -> Vec<(u8, u8)> {
    vec![(0xe0, 0x0), (command_byte & 0x7f, 0x0), (number_of_params, 0x0)]
}

fn mock_single_byte_size_params(number_of_param_bytes: u8, byte_value: u8) -> Vec<(u8, u8)> {
    let mut expectations = vec![(number_of_param_bytes, 0x0)];
    for _ in 0..number_of_param_bytes {
        expectations.push((byte_value, 0x0));
    }
    expectations
}

fn mock_padding(number_of_padding_bytes: u8) -> Vec<(u8, u8)> {
    let mut expectations = Vec::new();
    for _ in 0..number_of_padding_bytes {
        expectations.push((0xff, 0x0));
    }
    expectations
}

fn mock_end_byte() -> Vec<(u8, u8)> {
    vec![(0xee, 0x0)]
}

fn mock_receive(command_byte: u8, number_of_params_to_receive: u8, values: &[u8]) -> Vec<(u8, u8)> {
    let mut expectations = vec![
        (0xff, 0xe0),
        (0xff, command_byte | 0x80),
        (0xff, number_of_params_to_receive),
        (0xff, values.len() as u8),
    ];
    for v in values {
        expectations.push((0xff, *v));
    }
    expectations.push((0xff, 0xee));
    expectations
}

use esp32_wroom_rp::network::{ConnectionState, IpAddress, NetworkError, Port, TransportMode};
use esp32_wroom_rp::protocol::ProtocolError;
use esp32_wroom_rp::spi::NinaProtocolHandler;
use esp32_wroom_rp::wifi::{ConnectionStatus, Wifi};
use esp32_wroom_rp::{Error, FirmwareVersion};

fn wifi_with(script: Vec<(u8, u8)>) -> Wifi<ScriptedBus, EspControlMock> {
    let mut delay = MockNoop {};
    Wifi::init(ScriptedBus::new(script), EspControlMock {}, &mut delay).ok().unwrap()
}

#[test]
fn too_large_of_a_nina_param_throws_error() {
    let bytes = [0xA; 256];
    let str_slice: &str = std::str::from_utf8(&bytes).unwrap();

    let mut protocol_handler = NinaProtocolHandler::new(ScriptedBus::new(vec![]), EspControlMock {});

    let result = protocol_handler.set_passphrase(str_slice, "");

    assert_eq!(result.unwrap_err(), Error::Protocol(ProtocolError::PayloadTooLarge));
    protocol_handler.bus.done();
}

#[test]
fn too_many_parameters_error() {
    let command = 0x37;
    let mut expectations = mock_command(command, 0x0);
    expectations.append(&mut mock_end_byte());
    expectations.append(&mut vec![(0xff, 0xe0), (0xff, command | 0x80), (0xff, 0x1), (0xff, 0x9)]);

    let mut wifi = wifi_with(expectations);
    let f = wifi.firmware_version();

    assert_eq!(f.unwrap_err(), Error::Protocol(ProtocolError::TooManyParameters));
    wifi.destroy().done();
}

#[test]
fn invalid_number_of_parameters_error() {
    let command = 0x37;
    let mut expectations = mock_command(command, 0x0);
    expectations.append(&mut mock_end_byte());
    expectations.append(&mut vec![(0xff, 0xe0), (0xff, command | 0x80), (0xff, 0x0)]);

    let mut wifi = wifi_with(expectations);
    let f = wifi.firmware_version();

    assert_eq!(f.unwrap_err(), Error::Protocol(ProtocolError::InvalidNumberOfParameters));
    wifi.destroy().done();
}

#[test]
fn invalid_command_induces_invalid_command_error() {
    let command = 0x37;
    let mut expectations = mock_command(command, 0x0);
    expectations.append(&mut mock_end_byte());
    expectations.append(&mut vec![(0xff, 0xe0), (0xff, 0xff)]);

    let mut wifi = wifi_with(expectations);
    let f = wifi.firmware_version();

    assert_eq!(f.unwrap_err(), Error::Protocol(ProtocolError::InvalidCommand));
    wifi.destroy().done();
}

#[test]
fn timeout_induces_communication_timeout_error() {
    let command = 0x37;
    let mut expectations = mock_command(command, 0x0);
    expectations.append(&mut mock_end_byte());
    // reading 1000 bytes exhausts the retry limit
    for _ in 0..1000 {
        expectations.push((0xff, 0x0));
    }

    let mut wifi = wifi_with(expectations);
    let f = wifi.firmware_version();

    assert_eq!(f.unwrap_err(), Error::Protocol(ProtocolError::CommunicationTimeout));
    wifi.destroy().done();
}

#[test]
fn invalid_command_induces_nina_protocol_version_mismatch_error() {
    let command = 0x37;
    let mut expectations = mock_command(command, 0x0);
    expectations.append(&mut mock_end_byte());
    // the error byte, then the two bytes that follow it
    expectations.append(&mut vec![(0xff, 0xef), (0xff, 0x00), (0xff, 0xee)]);

    let mut wifi = wifi_with(expectations);
    let f = wifi.firmware_version();

    assert_eq!(f.unwrap_err(), Error::Protocol(ProtocolError::NinaProtocolVersionMismatch));
    wifi.destroy().done();
}

#[test]
fn error_marker_after_filler_bytes_is_a_version_mismatch() {
    let mut expectations = mock_command(0x37, 0x0);
    expectations.append(&mut mock_end_byte());
    expectations.append(&mut vec![(0xff, 0x00), (0xff, 0x12), (0xff, 0xef), (0xff, 0x00), (0xff, 0xee)]);

    let mut wifi = wifi_with(expectations);
    assert_eq!(
        wifi.firmware_version().unwrap_err(),
        Error::Protocol(ProtocolError::NinaProtocolVersionMismatch)
    );
    wifi.destroy().done();
}

#[test]
fn start_byte_on_the_last_try_is_accepted() {
    let mut expectations = mock_command(0x37, 0x0);
    expectations.append(&mut mock_end_byte());
    for _ in 0..999 {
        expectations.push((0xff, 0x0));
    }
    let mut reply = mock_receive(0x37, 0x1, &[b'1', b'.', b'7', b'.', b'4']);
    expectations.append(&mut reply);

    let mut wifi = wifi_with(expectations);
    assert!(wifi.firmware_version().is_ok());
    wifi.destroy().done();
}

#[test]
fn firmware_version_is_read_from_a_reply() {
    let mut expectations = mock_command(0x37, 0x0);
    expectations.append(&mut mock_end_byte());
    expectations.append(&mut mock_receive(0x37, 0x1, &[b'1', b'.', b'7', b'.', b'4']));

    let mut wifi = wifi_with(expectations);
    let version = wifi.firmware_version().unwrap();

    // the version digits are handed over as the firmware sends them
    assert_eq!(version, FirmwareVersion { major: b'1', minor: b'7', patch: b'4' });
    wifi.destroy().done();
}

#[test]
fn join_sends_ssid_and_passphrase_padded_to_four_bytes() {
    // 3 + (1 + 2) + (1 + 3) + 1 = 11 bytes, so one filler byte
    let mut expectations = mock_command(0x11, 0x2);
    expectations.append(&mut vec![(0x2, 0x0), (b'a', 0x0), (b'b', 0x0)]);
    expectations.append(&mut vec![(0x3, 0x0), (b'x', 0x0), (b'y', 0x0), (b'z', 0x0)]);
    expectations.append(&mut mock_end_byte());
    expectations.append(&mut mock_padding(1));
    expectations.append(&mut mock_receive(0x11, 0x1, &[0x1]));

    let mut wifi = wifi_with(expectations);
    assert_eq!(wifi.join("ab", "xyz"), Ok(()));
    wifi.destroy().done();
}

#[test]
fn frame_of_a_multiple_of_four_gets_no_padding() {
    // 3 + (1 + 4) + (1 + 2) + (1 + 1) + (1 + 1) + 1 = 16 bytes
    let mut expectations = mock_command(0x2d, 0x4);
    expectations.append(&mut mock_single_byte_size_params(4, 0x40));
    expectations.append(&mut vec![(0x2, 0x0), (0x12, 0x0), (0x34, 0x0)]);
    expectations.append(&mut mock_single_byte_size_params(1, 0x7));
    expectations.append(&mut mock_single_byte_size_params(1, 0x2));
    expectations.append(&mut mock_end_byte());
    expectations.append(&mut mock_receive(0x2d, 0x1, &[0x1]));

    let mut handler = NinaProtocolHandler::new(ScriptedBus::new(expectations), EspControlMock {});
    let ip: IpAddress = [0x40, 0x40, 0x40, 0x40];
    let port: Port = 0x1234;
    assert_eq!(handler.start_client_tcp(7, ip, port, &TransportMode::Tls), Ok(()));
    handler.bus.done();
}

#[test]
fn start_client_tcp_refusal_is_connect_failed() {
    let mut expectations = mock_command(0x2d, 0x4);
    expectations.append(&mut mock_single_byte_size_params(4, 0x40));
    expectations.append(&mut vec![(0x2, 0x0), (0x00, 0x0), (0x50, 0x0)]);
    expectations.append(&mut mock_single_byte_size_params(1, 0x0));
    expectations.append(&mut mock_single_byte_size_params(1, 0x0));
    expectations.append(&mut mock_end_byte());
    expectations.append(&mut mock_receive(0x2d, 0x1, &[0x0]));

    let mut handler = NinaProtocolHandler::new(ScriptedBus::new(expectations), EspControlMock {});
    let result = handler.start_client_tcp(0, [0x40; 4], 80, &TransportMode::Tcp);
    assert_eq!(result, Err(Error::Network(NetworkError::ConnectFailed)));
    handler.bus.done();
}

#[test]
fn stop_client_tcp_refusal_is_disconnect_failed() {
    let mut expectations = mock_command(0x2e, 0x1);
    expectations.append(&mut mock_single_byte_size_params(1, 0x3));
    expectations.append(&mut mock_end_byte());
    expectations.append(&mut mock_padding(2));
    expectations.append(&mut mock_receive(0x2e, 0x1, &[0x2]));

    let mut handler = NinaProtocolHandler::new(ScriptedBus::new(expectations), EspControlMock {});
    let result = handler.stop_client_tcp(3, &TransportMode::Tcp);
    assert_eq!(result, Err(Error::Network(NetworkError::DisconnectFailed)));
    handler.bus.done();
}

#[test]
fn connection_status_and_state_are_decoded() {
    let mut expectations = mock_command(0x20, 0x0);
    expectations.append(&mut mock_end_byte());
    expectations.append(&mut mock_receive(0x20, 0x1, &[0x3]));
    expectations.append(&mut mock_command(0x2f, 0x1));
    expectations.append(&mut mock_single_byte_size_params(1, 0x0));
    expectations.append(&mut mock_end_byte());
    expectations.append(&mut mock_padding(2));
    expectations.append(&mut mock_receive(0x2f, 0x1, &[0x2]));

    let mut wifi = wifi_with(expectations);
    assert_eq!(wifi.get_connection_status(), Ok(ConnectionStatus::Connected));
    assert_eq!(
        wifi.protocol_handler.get_client_state_tcp(0),
        Ok(ConnectionState::SynSent)
    );
    wifi.destroy().done();
}

#[test]
fn leave_sends_one_filler_parameter() {
    let mut expectations = mock_command(0x30, 0x1);
    expectations.append(&mut mock_single_byte_size_params(1, 0xff));
    expectations.append(&mut mock_end_byte());
    expectations.append(&mut mock_padding(2));
    expectations.append(&mut mock_receive(0x30, 0x1, &[0x1]));

    let mut wifi = wifi_with(expectations);
    assert_eq!(wifi.leave(), Ok(()));
    wifi.destroy().done();
}

#[test]
fn set_dns_without_second_server_sends_zeros() {
    // 3 + (1 + 1) + (1 + 4) + (1 + 4) + 1 = 16 bytes
    let mut expectations = mock_command(0x15, 0x3);
    expectations.append(&mut mock_single_byte_size_params(1, 0x1));
    expectations.append(&mut mock_single_byte_size_params(4, 0x9));
    expectations.append(&mut mock_single_byte_size_params(4, 0x0));
    expectations.append(&mut mock_end_byte());
    expectations.append(&mut mock_receive(0x15, 0x1, &[0x1]));

    let mut wifi = wifi_with(expectations);
    assert_eq!(wifi.set_dns([9, 9, 9, 9], None), Ok(()));
    wifi.destroy().done();
}

#[test]
fn send_data_uses_two_byte_lengths() {
    // 3 + (2 + 1) + (2 + 3) + 1 = 12 bytes
    let mut expectations = mock_command(0x44, 0x2);
    expectations.append(&mut vec![(0x0, 0x0), (0x1, 0x0), (0x5, 0x0)]);
    expectations.append(&mut vec![(0x0, 0x0), (0x3, 0x0), (b'G', 0x0), (b'E', 0x0), (b'T', 0x0)]);
    expectations.append(&mut mock_end_byte());
    expectations.append(&mut mock_receive(0x44, 0x1, &[0x3]));

    let mut handler = NinaProtocolHandler::new(ScriptedBus::new(expectations), EspControlMock {});
    assert_eq!(handler.send_data("GET", 5), Ok([0x3]));
    handler.bus.done();
}

#[test]
fn avail_data_reads_a_two_byte_length_reply() {
    // 3 + (2 + 1) + 1 = 7 bytes, so one filler byte
    let mut expectations = mock_command(0x2b, 0x1);
    expectations.append(&mut vec![(0x0, 0x0), (0x1, 0x0), (0x2, 0x0)]);
    expectations.append(&mut mock_end_byte());
    expectations.append(&mut mock_padding(1));
    expectations.append(&mut vec![
        (0xff, 0xe0),
        (0xff, 0x2b | 0x80),
        (0xff, 0x1),
        (0xff, 0x0),
        (0xff, 0x2),
        (0xff, 0x2a),
        (0xff, 0x00),
        (0xff, 0xee),
    ]);

    let mut handler = NinaProtocolHandler::new(ScriptedBus::new(expectations), EspControlMock {});
    assert_eq!(handler.avail_data_tcp(2), Ok(42));
    handler.bus.done();
}

#[test]
fn long_two_byte_length_reads_one_buffer() {
    let mut expectations = mock_command(0x2b, 0x1);
    expectations.append(&mut vec![(0x0, 0x0), (0x1, 0x0), (0x2, 0x0)]);
    expectations.append(&mut mock_end_byte());
    expectations.append(&mut mock_padding(1));
    // a declared length of 1025 reads a buffer's worth: 1024 bytes
    expectations.append(&mut vec![(0xff, 0xe0), (0xff, 0x2b | 0x80), (0xff, 0x1), (0xff, 0x4), (0xff, 0x01)]);
    expectations.push((0xff, 0x07));
    for _ in 1..1024 {
        expectations.push((0xff, 0x00));
    }
    expectations.push((0xff, 0xee));

    let mut handler = NinaProtocolHandler::new(ScriptedBus::new(expectations), EspControlMock {});
    assert_eq!(handler.avail_data_tcp(2), Ok(7));
    handler.bus.done();
}

#[test]
fn connection_status_zero_is_idle() {
    let mut expectations = mock_command(0x20, 0x0);
    expectations.append(&mut mock_end_byte());
    expectations.append(&mut mock_receive(0x20, 0x1, &[0x0]));
    expectations.append(&mut mock_command(0x20, 0x0));
    expectations.append(&mut mock_end_byte());
    expectations.append(&mut mock_receive(0x20, 0x1, &[0xff]));
    expectations.append(&mut mock_command(0x20, 0x0));
    expectations.append(&mut mock_end_byte());
    expectations.append(&mut mock_receive(0x20, 0x1, &[0x0a]));

    let mut wifi = wifi_with(expectations);
    assert_eq!(wifi.get_connection_status(), Ok(ConnectionStatus::Idle));
    assert_eq!(wifi.get_connection_status(), Ok(ConnectionStatus::NoEsp32));
    assert_eq!(wifi.get_connection_status(), Ok(ConnectionStatus::Invalid));
    wifi.destroy().done();
}
