#![allow(dead_code)]

use esp32_wroom_rp::gpio::{DelayMs, EspControlInterface};
use esp32_wroom_rp::spi::ByteTransfer;

/// A bus that checks each byte the host sends against a script and answers
/// with the scripted reply.
struct ScriptedBus {
    script: Vec<(u8, u8)>,
    position: usize,
    mismatches: usize,
    sent: Vec<u8>,
}

impl ScriptedBus {
    fn new(script: Vec<(u8, u8)>) -> ScriptedBus {
        ScriptedBus { script, position: 0, mismatches: 0, sent: Vec::new() }
    }

    fn done(&self) {
        assert_eq!(self.mismatches, 0, "bytes sent: {:02x?}", self.sent);
        assert_eq!(self.position, self.script.len(), "bytes sent: {:02x?}", self.sent);
    }
}

impl ByteTransfer for ScriptedBus {
    fn transfer(&mut self, word: u8) -> u8 {
        self.sent.push(word);
        match self.script.get(self.position) {
            Some(&(expected, reply)) => {
                self.position += 1;
                if expected != word {
                    self.mismatches += 1;
                }
                reply
            }
            None => {
                self.mismatches += 1;
                0
            }
        }
    }
}

struct EspControlMock {}

impl EspControlInterface for EspControlMock {
    fn init(&mut self) {}

    fn reset<D: DelayMs>(&mut self, _delay: &mut D) {}

    fn esp_select(&mut self) {}

    fn esp_deselect(&mut self) {}

    fn get_esp_ready(&self) -> bool {
        true
    }

    fn get_esp_ack(&self) -> bool {
        true
    }

    fn wait_for_esp_ready(&self) {}

    fn wait_for_esp_ack(&self) {}

    fn wait_for_esp_select(&mut self) {}
}

struct MockNoop {}

impl DelayMs for MockNoop {
    fn delay_ms(&mut self, _ms: u16) {}
}

fn mock_command(command_byte: u8, number_of_params: u8) -> Vec<(u8, u8)> {
    vec![(0xe0, 0x0), (command_byte & 0x7f, 0x0), (number_of_params, 0x0)]
}

fn mock_single_byte_size_params(number_of_param_bytes: u8, byte_value: u8) -> Vec<(u8, u8)> {
    let mut expectations = vec![(number_of_param_bytes, 0x0)];
    for _ in 0..number_of_param_bytes {
        expectations.push((byte_value, 0x0));
    }
    expectations
}

fn mock_padding(number_of_padding_bytes: u8) -> Vec<(u8, u8)> {
    let mut expectations = Vec::new();
    for _ in 0..number_of_padding_bytes {
        expectations.push((0xff, 0x0));
    }
    expectations
}

fn mock_end_byte() -> Vec<(u8, u8)> {
    vec![(0xee, 0x0)]
}

fn mock_receive(command_byte: u8, number_of_params_to_receive: u8, values: &[u8]) -> Vec<(u8, u8)> {
    let mut expectations = vec![
        (0xff, 0xe0),
        (0xff, command_byte | 0x80),
        (0xff, number_of_params_to_receive),
        (0xff, values.len() as u8),
    ];
    for v in values {
        expectations.push((0xff, *v));
    }
    expectations.push((0xff, 0xee));
    expectations
}

use esp32_wroom_rp::network::{IpAddress, NetworkError, Port, TransportMode};
use esp32_wroom_rp::protocol::ProtocolError;
use esp32_wroom_rp::tcp_client::{OnConnected, TcpClient};
use esp32_wroom_rp::wifi::Wifi;
use esp32_wroom_rp::Error;

/// Records that the connection callback ran, and how often.
struct Probe {
    value: u8,
    calls: usize,
}

impl OnConnected<ScriptedBus, EspControlMock> for Probe {
    fn on_connected(&mut self, _tcp_client: &mut TcpClient<ScriptedBus, EspControlMock>) {
        self.value = 2;
        self.calls += 1;
    }
}

fn wifi_with(script: Vec<(u8, u8)>) -> Wifi<ScriptedBus, EspControlMock> {
    let mut delay = MockNoop {};
    Wifi::init(ScriptedBus::new(script), EspControlMock {}, &mut delay).ok().unwrap()
}

fn get_socket_exchange(socket: u8) -> Vec<(u8, u8)> {
    let mut expectations = mock_command(0x3f, 0x0);
    expectations.append(&mut mock_end_byte());
    expectations.append(&mut mock_receive(0x3f, 0x1, &[socket]));
    expectations
}

fn start_client_tcp_exchange(ip_byte: u8, reply: u8) -> Vec<(u8, u8)> {
    let mut expectations = mock_command(0x2d, 0x4);
    expectations.append(&mut mock_single_byte_size_params(4, ip_byte)); // IP address
    expectations.append(&mut mock_single_byte_size_params(2, 0x11)); // port
    expectations.append(&mut mock_single_byte_size_params(1, 0x0)); // socket
    expectations.append(&mut mock_single_byte_size_params(1, 0x0)); // transport mode
    expectations.append(&mut mock_end_byte());
    expectations.append(&mut mock_receive(0x2d, 0x1, &[reply]));
    expectations
}

fn client_state_exchange(state: u8) -> Vec<(u8, u8)> {
    let mut expectations = mock_command(0x2f, 0x1);
    expectations.append(&mut mock_single_byte_size_params(1, 0x0));
    expectations.append(&mut mock_end_byte());
    expectations.append(&mut mock_padding(2));
    expectations.append(&mut mock_receive(0x2f, 0x1, &[state]));
    expectations
}

fn stop_client_tcp_exchange() -> Vec<(u8, u8)> {
    let mut expectations = mock_command(0x2e, 0x1);
    expectations.append(&mut mock_single_byte_size_params(1, 0x0));
    expectations.append(&mut mock_end_byte());
    expectations.append(&mut mock_padding(2));
    expectations.append(&mut mock_receive(0x2e, 0x1, &[0x1]));
    expectations
}

fn resolve_exchange(hostname_byte: u8, address: &[u8]) -> Vec<(u8, u8)> {
    // req_host_by_name: 3 + (1 + 4) + 1 = 9 bytes, so three filler bytes
    let mut expectations = mock_command(0x34, 0x1);
    expectations.append(&mut mock_single_byte_size_params(4, hostname_byte));
    expectations.append(&mut mock_end_byte());
    expectations.append(&mut mock_padding(3));
    expectations.append(&mut mock_receive(0x34, 0x1, &[0x1]));
    // get_host_by_name
    expectations.append(&mut mock_command(0x35, 0x0));
    expectations.append(&mut mock_end_byte());
    expectations.append(&mut mock_receive(0x35, 0x1, address));
    expectations
}

#[test]
fn successful_tcp_connection_with_hostname_invokes_closure() {
    let mut expectations = get_socket_exchange(0x0);
    expectations.append(&mut resolve_exchange(0x46, &[0x46, 0x46, 0x46, 0x46])); // hostname is "FFFF"
    expectations.append(&mut start_client_tcp_exchange(0x46, 0x1));
    expectations.append(&mut client_state_exchange(0x4)); // ConnectionState::Established
    expectations.append(&mut stop_client_tcp_exchange());

    let wifi = wifi_with(expectations);
    let mut delay = MockNoop {};
    let hostname: &str = "FFFF";
    let port: Port = 0x1111;
    let mode: TransportMode = TransportMode::Tcp;

    // if the value is updated by the callback then the callback ran.
    let mut probe = Probe { value: 1, calls: 0 };
    let mut client = TcpClient::build(wifi);
    client.connect_hostname(hostname, port, mode, &mut delay, &mut probe).unwrap();

    assert_eq!(probe.value, 2);
    assert_eq!(client.server_hostname(), "FFFF");
    assert_eq!(client.server_ip_address(), Some([0x46, 0x46, 0x46, 0x46]));
    client.demote_to_network().destroy().done();
}

#[test]
fn successful_tcp_connection_with_ip_address_invokes_closure() {
    let mut expectations = get_socket_exchange(0x0);
    expectations.append(&mut start_client_tcp_exchange(0x40, 0x1));
    expectations.append(&mut client_state_exchange(0x4)); // ConnectionState::Established
    expectations.append(&mut stop_client_tcp_exchange());

    let wifi = wifi_with(expectations);
    let mut delay = MockNoop {};
    let ip_address: IpAddress = [0x40, 0x40, 0x40, 0x40];
    let port: Port = 0x1111;
    let mode: TransportMode = TransportMode::Tcp;

    let mut probe = Probe { value: 1, calls: 0 };
    let mut client = TcpClient::build(wifi);
    client.connect(ip_address, port, mode, &mut delay, &mut probe).unwrap();

    assert_eq!(probe.value, 2);
    assert_eq!(client.port(), 0x1111);
    assert_eq!(client.mode(), TransportMode::Tcp);
    client.demote_to_network().destroy().done();
}

#[test]
fn established_on_first_poll_runs_callback_once_then_stops_once() {
    let mut expectations = get_socket_exchange(0x0);
    expectations.append(&mut start_client_tcp_exchange(0x40, 0x1));
    expectations.append(&mut client_state_exchange(0x4));
    expectations.append(&mut stop_client_tcp_exchange());

    let mut probe = Probe { value: 1, calls: 0 };
    let mut client = TcpClient::build(wifi_with(expectations));
    let result = client.connect([0x40; 4], 0x1111, TransportMode::Tcp, &mut MockNoop {}, &mut probe);

    assert_eq!(result, Ok(()));
    assert_eq!(probe.calls, 1);
    // the script ends with exactly one stop exchange, and all of it was used
    client.demote_to_network().destroy().done();
}

#[test]
fn pending_states_are_polled_until_established() {
    let mut expectations = get_socket_exchange(0x0);
    expectations.append(&mut start_client_tcp_exchange(0x40, 0x1));
    expectations.append(&mut client_state_exchange(0x0)); // Closed
    expectations.append(&mut client_state_exchange(0x2)); // SynSent
    expectations.append(&mut client_state_exchange(0x4)); // Established
    expectations.append(&mut stop_client_tcp_exchange());

    let mut probe = Probe { value: 1, calls: 0 };
    let mut client = TcpClient::build(wifi_with(expectations));
    let result = client.connect([0x40; 4], 0x1111, TransportMode::Tcp, &mut MockNoop {}, &mut probe);

    assert_eq!(result, Ok(()));
    assert_eq!(probe.calls, 1);
    client.demote_to_network().destroy().done();
}

#[test]
fn tcp_connection_timeout_error() {
    let mut expectations = get_socket_exchange(0x0);
    expectations.append(&mut start_client_tcp_exchange(0x40, 0x1));
    for _ in 0..10_000 {
        // The first byte is the connection state. Only 0x4 counts as established.
        expectations.append(&mut client_state_exchange(0x1));
    }
    expectations.append(&mut stop_client_tcp_exchange());

    let wifi = wifi_with(expectations);
    let mut delay = MockNoop {};
    let ip_address: IpAddress = [0x40, 0x40, 0x40, 0x40];
    let port: Port = 0x1111;
    let mode: TransportMode = TransportMode::Tcp;

    let mut probe = Probe { value: 1, calls: 0 };
    let mut client = TcpClient::build(wifi);
    let result = client.connect(ip_address, port, mode, &mut delay, &mut probe);

    assert_eq!(result.unwrap_err(), Error::Network(NetworkError::ConnectionTimeout));
    assert_eq!(probe.calls, 0);
    client.demote_to_network().destroy().done();
}

#[test]
fn poll_error_stops_the_connection_and_is_returned() {
    let mut expectations = get_socket_exchange(0x0);
    expectations.append(&mut start_client_tcp_exchange(0x40, 0x1));
    let mut poll = mock_command(0x2f, 0x1);
    poll.append(&mut mock_single_byte_size_params(1, 0x0));
    poll.append(&mut mock_end_byte());
    poll.append(&mut mock_padding(2));
    poll.append(&mut vec![(0xff, 0xe0), (0xff, 0x00)]); // wrong reply opcode
    expectations.append(&mut poll);
    expectations.append(&mut stop_client_tcp_exchange());

    let mut probe = Probe { value: 1, calls: 0 };
    let mut client = TcpClient::build(wifi_with(expectations));
    let result = client.connect([0x40; 4], 0x1111, TransportMode::Tcp, &mut MockNoop {}, &mut probe);

    assert_eq!(result, Err(Error::Protocol(ProtocolError::InvalidCommand)));
    assert_eq!(probe.calls, 0);
    client.demote_to_network().destroy().done();
}

#[test]
fn failed_start_is_not_followed_by_a_stop() {
    let mut expectations = get_socket_exchange(0x0);
    expectations.append(&mut start_client_tcp_exchange(0x40, 0x0));

    let mut probe = Probe { value: 1, calls: 0 };
    let mut client = TcpClient::build(wifi_with(expectations));
    let result = client.connect([0x40; 4], 0x1111, TransportMode::Tcp, &mut MockNoop {}, &mut probe);

    assert_eq!(result, Err(Error::Network(NetworkError::ConnectFailed)));
    client.demote_to_network().destroy().done();
}

#[test]
fn failed_resolution_aborts_before_start() {
    let mut expectations = get_socket_exchange(0x0);
    expectations.append(&mut resolve_exchange(0x46, &[255, 255, 255, 255]));

    let mut probe = Probe { value: 1, calls: 0 };
    let mut client = TcpClient::build(wifi_with(expectations));
    let result = client.connect_hostname("FFFF", 0x1111, TransportMode::Tcp, &mut MockNoop {}, &mut probe);

    assert_eq!(result, Err(Error::Network(NetworkError::DnsResolveFailed)));
    assert_eq!(probe.calls, 0);
    client.demote_to_network().destroy().done();
}

#[test]
fn resolve_of_all_ones_is_dns_resolve_failed() {
    let mut wifi = wifi_with(resolve_exchange(0x46, &[255, 255, 255, 255, 0, 0, 0, 0]));

    assert_eq!(wifi.resolve("FFFF"), Err(Error::Network(NetworkError::DnsResolveFailed)));
    wifi.destroy().done();
}

#[test]
fn resolve_returns_the_first_four_reply_bytes() {
    let mut wifi = wifi_with(resolve_exchange(0x67, &[140, 82, 114, 3, 0, 0, 0, 0]));

    assert_eq!(wifi.resolve("gggg"), Ok([140, 82, 114, 3]));
    wifi.destroy().done();
}

#[test]
fn unacknowledged_lookup_request_is_dns_resolve_failed() {
    let mut expectations = mock_command(0x34, 0x1);
    expectations.append(&mut mock_single_byte_size_params(4, 0x46));
    expectations.append(&mut mock_end_byte());
    expectations.append(&mut mock_padding(3));
    expectations.append(&mut mock_receive(0x34, 0x1, &[0x0]));
    let mut wifi = wifi_with(expectations);

    assert_eq!(wifi.resolve("FFFF"), Err(Error::Network(NetworkError::DnsResolveFailed)));
    wifi.destroy().done();
}

#[test]
fn send_data_goes_to_the_connected_socket() {
    let mut expectations = get_socket_exchange(0x0);
    expectations.append(&mut start_client_tcp_exchange(0x40, 0x1));
    expectations.append(&mut client_state_exchange(0x4));
    // send_data: 3 + (2 + 1) + (2 + 2) + 1 = 11 bytes, so one filler byte
    expectations.append(&mut mock_command(0x44, 0x2));
    expectations.append(&mut vec![(0x0, 0x0), (0x1, 0x0), (0x0, 0x0)]);
    expectations.append(&mut vec![(0x0, 0x0), (0x2, 0x0), (b'h', 0x0), (b'i', 0x0)]);
    expectations.append(&mut mock_end_byte());
    expectations.append(&mut mock_padding(1));
    expectations.append(&mut mock_receive(0x44, 0x1, &[0x2]));
    expectations.append(&mut stop_client_tcp_exchange());

    struct Sender {
        reply: Option<Result<[u8; 1], Error>>,
    }
    impl OnConnected<ScriptedBus, EspControlMock> for Sender {
        fn on_connected(&mut self, tcp_client: &mut TcpClient<ScriptedBus, EspControlMock>) {
            self.reply = Some(tcp_client.send_data("hi"));
        }
    }

    let mut sender = Sender { reply: None };
    let mut client = TcpClient::build(wifi_with(expectations));
    let result = client.connect([0x40; 4], 0x1111, TransportMode::Tcp, &mut MockNoop {}, &mut sender);

    assert_eq!(result, Ok(()));
    assert_eq!(sender.reply, Some(Ok([0x2])));
    client.demote_to_network().destroy().done();
}

#[test]
fn empty_hostname_connects_to_the_stored_address_without_lookup() {
    let mut expectations = get_socket_exchange(0x0);
    expectations.append(&mut start_client_tcp_exchange(0x0, 0x1));
    expectations.append(&mut client_state_exchange(0x4));
    expectations.append(&mut stop_client_tcp_exchange());

    let mut probe = Probe { value: 1, calls: 0 };
    let mut client = TcpClient::build(wifi_with(expectations));
    let result = client.connect_hostname("", 0x1111, TransportMode::Tcp, &mut MockNoop {}, &mut probe);

    assert_eq!(result, Ok(()));
    assert_eq!(probe.calls, 1);
    client.demote_to_network().destroy().done();
}
