//! A TCP client: socket acquisition, connection with bounded polling, the
//! caller's payload exchange, and teardown.
use vstd::prelude::*;
use vstd::string::*;

use crate::gpio::{DelayMs, EspControlInterface};
use crate::network::{ConnectionState, IpAddress, NetworkError, Port, Socket, TransportMode};
use crate::protocol::too_large;
use crate::protocol::NinaCommand;
use crate::network::{connection_state_of, mode_byte};
use crate::spi::{
    field, first_byte, flag_result, lookup_done, outcome, performed, port_bytes, BusEvent,
    ByteTransfer, NinaProtocolHandler,
};
use crate::wifi::Wifi;
use crate::protocol::ProtocolError;
use crate::Error;

verus! {

/// The longest hostname a client holds, in bytes.
pub const MAX_HOSTNAME_LENGTH: usize = 255;

/// How many times the connection state is polled before giving up.
pub const CONNECT_RETRY_LIMIT: u16 = 10000;

/// Milliseconds to wait after starting a connection.
pub const START_SETTLE_MS: u16 = 250;

/// Milliseconds to wait between two polls.
pub const POLL_INTERVAL_MS: u16 = 100;

#[verifier::external_type_specification]
#[verifier::external_body]
pub struct ExHeaplessString<const N: usize>(heapless::String<N>);

/// Storage of a hostname.
pub type HostnameBuffer = heapless::String<MAX_HOSTNAME_LENGTH>;

/// The text held in a hostname buffer.
pub uninterp spec fn hostname_text(s: heapless::String<255>) -> Seq<char>;

/// Relies on `heapless::String::new`: the new string is empty.
#[verifier::external_body]
fn hostname_new() -> (r: HostnameBuffer)
    ensures
        hostname_text(r) == Seq::<char>::empty(),
{
    heapless::String::new()
}

/// Relies on `heapless::String::push_str` on an empty string: it fails
/// exactly when the text's bytes exceed the capacity, and otherwise the
/// string holds the text.
#[verifier::external_body]
fn hostname_from(text: &str) -> (r: Result<HostnameBuffer, ()>)
    ensures
        text.spec_bytes().len() <= 255 <==> r is Ok,
        r matches Ok(s) ==> hostname_text(s) == text@,
{
    let mut s: HostnameBuffer = heapless::String::new();
    match s.push_str(text) {
        Ok(()) => Ok(s),
        Err(()) => Err(()),
    }
}

/// Relies on `heapless::String::as_str`: the slice holds the string's text.
#[verifier::external_body]
fn hostname_as_str(s: &HostnameBuffer) -> (r: &str)
    ensures
        r@ == hostname_text(*s),
{
    s.as_str()
}

/// The address used when no hostname is given: the stored one, or all
/// zeros.
pub open spec fn stored_address(a: Option<IpAddress>) -> IpAddress {
    match a {
        Some(ip) => ip,
        None => [0u8, 0u8, 0u8, 0u8],
    }
}

/// What the caller supplies to run once a connection is established.
pub trait OnConnected<B, C> {
    /// Exchanges the application's payload over the connected client.
    fn on_connected(&mut self, client: &mut TcpClient<B, C>);
}

/// One call a connection attempt made, with its result.
pub enum TcpCall {
    /// A socket was requested.
    GetSocket(Result<Socket, Error>),
    /// The hostname was resolved.
    Resolve(Result<IpAddress, Error>),
    /// The connection was started on a socket, to an address and port.
    Start(Socket, IpAddress, Port, Result<(), Error>),
    /// The state of the connection on a socket was polled.
    Poll(Socket, Result<ConnectionState, Error>),
    /// The caller's payload exchange ran.
    Callback,
    /// The connection on a socket was stopped.
    Stop(Socket, Result<(), Error>),
}

/// A poll that found the connection not yet established.
pub open spec fn pending_poll(c: TcpCall, socket: Socket) -> bool {
    c matches TcpCall::Poll(s, Ok(state)) && s == socket && state != ConnectionState::Established
}

/// A final stop on `socket`: its own error wins over `otherwise`.
pub open spec fn stop_then(c: TcpCall, socket: Socket, otherwise: Result<(), Error>, r: Result<(), Error>) -> bool {
    match c {
        TcpCall::Stop(s, res) => s == socket && r == match res {
            Err(e) => Err(e),
            Ok(_) => otherwise,
        },
        _ => false,
    }
}

/// The calls after the polls that found the connection pending: an
/// established connection runs the callback then stops; a failed poll
/// stops; an exhausted budget stops with `ConnectionTimeout`.
pub open spec fn polling_end(u: Seq<TcpCall>, k: int, socket: Socket, r: Result<(), Error>) -> bool {
    if k == CONNECT_RETRY_LIMIT {
        u.len() == 1 && stop_then(u[0], socket, Err(Error::Network(NetworkError::ConnectionTimeout)), r)
    } else {
        ||| u.len() == 3 && u[0] == TcpCall::Poll(socket, Ok(ConnectionState::Established))
            && u[1] == TcpCall::Callback && stop_then(u[2], socket, Ok(()), r)
        ||| u.len() == 2 && (u[0] matches TcpCall::Poll(s, Err(e)) && s == socket
            && stop_then(u[1], socket, Err(e), r))
    }
}

/// The calls after a successful start on `socket`.
pub open spec fn polling_ok(t: Seq<TcpCall>, socket: Socket, r: Result<(), Error>) -> bool {
    exists|k: int|
        0 <= k <= CONNECT_RETRY_LIMIT && k <= t.len() && (forall|i: int|
            0 <= i < k ==> pending_poll(#[trigger] t[i], socket)) && #[trigger] polling_end(
            t.skip(k),
            k,
            socket,
            r,
        )
}

/// The calls from the start on: a failed start ends the attempt with no
/// stop; otherwise polling follows, and every way out of it stops.
pub open spec fn started_ok(t: Seq<TcpCall>, socket: Socket, ip: IpAddress, port: Port, r: Result<(), Error>) -> bool {
    &&& t.len() >= 1
    &&& match t[0] {
        TcpCall::Start(s, a, p, res) => s == socket && a == ip && p == port && match res {
            Err(e) => t.len() == 1 && r == Err::<(), Error>(e),
            Ok(_) => polling_ok(t.skip(1), socket, r),
        },
        _ => false,
    }
}

/// A whole connection attempt: a socket, with a hostname its resolution
/// (a failure ends the attempt before anything is started), then the start.
pub open spec fn attempt_ok(t: Seq<TcpCall>, by_name: bool, ip: IpAddress, port: Port, r: Result<(), Error>) -> bool {
    &&& t.len() >= 1
    &&& match t[0] {
        TcpCall::GetSocket(Err(e)) => t.len() == 1 && r == Err::<(), Error>(e),
        TcpCall::GetSocket(Ok(socket)) => if by_name {
            &&& t.len() >= 2
            &&& match t[1] {
                TcpCall::Resolve(Err(e)) => t.len() == 2 && r == Err::<(), Error>(e),
                TcpCall::Resolve(Ok(addr)) => started_ok(t.skip(2), socket, addr, port, r),
                _ => false,
            }
        } else {
            started_ok(t.skip(1), socket, ip, port, r)
        },
        _ => false,
    }
}

/// A call that started the connection successfully.
pub open spec fn is_good_start(c: TcpCall) -> bool {
    c matches TcpCall::Start(_, _, _, Ok(_))
}

/// A call that stopped the connection.
pub open spec fn is_stop(c: TcpCall) -> bool {
    c is Stop
}

proof fn lemma_started_tail(t: Seq<TcpCall>, off: int, socket: Socket, ip: IpAddress, port: Port, r: Result<(), Error>)
    requires
        0 <= off <= t.len(),
        started_ok(t.skip(off), socket, ip, port, r),
        forall|i: int| 0 <= i < off ==> !is_good_start(#[trigger] t[i]) && !is_stop(t[i]),
    ensures
        (exists|i: int| 0 <= i < t.len() && #[trigger] is_good_start(t[i])) <==> is_stop(t.last()),
        forall|i: int| 0 <= i < t.len() - 1 ==> !is_stop(#[trigger] t[i]),
{
    let u = t.skip(off);
    assert(t[off] == u[0]);
    match u[0] {
        TcpCall::Start(_, _, _, Err(_)) => {
            assert(t.len() == off + 1);
            assert forall|i: int| 0 <= i < t.len() implies !#[trigger] is_good_start(t[i]) by {}
        },
        _ => {
            let v = u.skip(1);
            assert(polling_ok(v, socket, r));
            let k = choose|k: int|
                0 <= k <= CONNECT_RETRY_LIMIT && k <= v.len() && (forall|i: int|
                    0 <= i < k ==> pending_poll(#[trigger] v[i], socket)) && #[trigger] polling_end(
                    v.skip(k),
                    k,
                    socket,
                    r,
                );
            let w = v.skip(k);
            assert forall|j: int| 0 <= j < v.len() implies #[trigger] t[off + 1 + j] == v[j] by {}
            assert forall|j: int| 0 <= j < w.len() implies #[trigger] v[k + j] == w[j] by {}
            assert(is_stop(w.last()));
            assert(t.last() == v[v.len() - 1]);
            assert(is_good_start(t[off]));
            assert forall|i: int| 0 <= i < t.len() - 1 implies !is_stop(#[trigger] t[i]) by {
                if i > off {
                    let j = i - off - 1;
                    if j < k {
                        assert(pending_poll(v[j], socket));
                    } else {
                        assert(v[j] == w[j - k]);
                    }
                }
            }
        },
    }
}

/// The shape of an attempt: either nothing was started and no poll,
/// callback or stop happened, or a successful start at `off` is followed by
/// `k` pending polls and then the end of polling.
proof fn lemma_attempt_shape(t: Seq<TcpCall>, by_name: bool, ip: IpAddress, port: Port, r: Result<(), Error>) -> (s: (bool, int, int, Socket))
    requires
        attempt_ok(t, by_name, ip, port, r),
    ensures
        !s.0 ==> forall|i: int|
            0 <= i < t.len() ==> !(#[trigger] t[i] is Poll) && !(t[i] is Callback) && !is_stop(t[i])
                && !is_good_start(t[i]),
        s.0 ==> 0 <= s.1 && s.1 + 1 + s.2 <= t.len() && 0 <= s.2 <= CONNECT_RETRY_LIMIT,
        s.0 ==> is_good_start(t[s.1]),
        s.0 ==> forall|i: int| 0 <= i < s.1 ==> !(#[trigger] t[i] is Poll) && !(t[i] is Callback) && !is_stop(t[i]),
        s.0 ==> forall|i: int| s.1 < i < s.1 + 1 + s.2 ==> pending_poll(#[trigger] t[i], s.3),
        s.0 ==> polling_end(t.skip(s.1 + 1 + s.2), s.2, s.3, r),
{
    let (off, socket, addr): (int, Socket, IpAddress) = match t[0] {
        TcpCall::GetSocket(Ok(sk)) => if by_name {
            match t[1] {
                TcpCall::Resolve(Ok(a)) => (2, sk, a),
                _ => (-1, sk, ip),
            }
        } else {
            (1, sk, ip)
        },
        _ => (-1, 0u8, ip),
    };
    if off < 0 {
        assert forall|i: int| 0 <= i < t.len() implies !(#[trigger] t[i] is Poll) && !(t[i] is Callback) && !is_stop(t[i])
            && !is_good_start(t[i]) by {}
        return (false, 0, 0, 0);
    }
    let u = t.skip(off);
    assert(started_ok(u, socket, addr, port, r));
    assert(t[off] == u[0]);
    match u[0] {
        TcpCall::Start(_, _, _, Ok(_)) => {},
        _ => {
            assert(t.len() == off + 1);
            assert forall|i: int| 0 <= i < t.len() implies !(#[trigger] t[i] is Poll) && !(t[i] is Callback) && !is_stop(t[i])
                && !is_good_start(t[i]) by {}
            return (false, 0, 0, 0);
        },
    }
    let v = u.skip(1);
    assert(polling_ok(v, socket, r));
    let k = choose|k: int|
        0 <= k <= CONNECT_RETRY_LIMIT && k <= v.len() && (forall|i: int|
            0 <= i < k ==> pending_poll(#[trigger] v[i], socket)) && #[trigger] polling_end(
            v.skip(k),
            k,
            socket,
            r,
        );
    assert forall|i: int| off < i < off + 1 + k implies pending_poll(#[trigger] t[i], socket) by {
        assert(t[i] == v[i - off - 1]);
    }
    assert(t.skip(off + 1 + k) =~= v.skip(k));
    (true, off, k, socket)
}

/// Established: when a poll finds the connection established, the
/// callback runs right after it and nowhere else, and the stop that follows
/// is the attempt's last call.
pub proof fn established_law(t: Seq<TcpCall>, by_name: bool, ip: IpAddress, port: Port, r: Result<(), Error>, i: int)
    requires
        attempt_ok(t, by_name, ip, port, r),
        0 <= i < t.len(),
        t[i] matches TcpCall::Poll(_, Ok(state)) && state == ConnectionState::Established,
    ensures
        t.len() == i + 3,
        t[i + 1] == TcpCall::Callback,
        is_stop(t[i + 2]),
        forall|j: int| 0 <= j < t.len() && j != i + 1 ==> !(#[trigger] t[j] is Callback),
{
    let s = lemma_attempt_shape(t, by_name, ip, port, r);
    let (off, k) = (s.1, s.2);
    let w = t.skip(off + 1 + k);
    assert(s.0);
    if i < off + 1 + k {
        assert(i > off);
        assert(pending_poll(t[i], s.3));
    }
    assert(t[i] == w[i - off - 1 - k]);
    assert forall|j: int| 0 <= j < t.len() && j != i + 1 implies !(#[trigger] t[j] is Callback) by {
        if j > off + k {
            assert(t[j] == w[j - off - 1 - k]);
        } else if j > off {
            assert(pending_poll(t[j], s.3));
        }
    }
    assert(t[i + 1] == w[i + 1 - off - 1 - k]);
    assert(t[i + 2] == w[i + 2 - off - 1 - k]);
}

/// Timeout: when a connection was started and no poll found it established
/// or failed, the whole budget of polls was used, the callback never ran,
/// the attempt ends with its one stop, and, unless that stop failed, the
/// result is `ConnectionTimeout`.
pub proof fn connection_timeout_law(t: Seq<TcpCall>, by_name: bool, ip: IpAddress, port: Port, r: Result<(), Error>, start: int)
    requires
        attempt_ok(t, by_name, ip, port, r),
        0 <= start < t.len(),
        is_good_start(t[start]),
        forall|i: int| 0 <= i < t.len() && (#[trigger] t[i] is Poll) ==> (t[i] matches TcpCall::Poll(_, Ok(state))
            && state != ConnectionState::Established),
    ensures
        t.len() == start + CONNECT_RETRY_LIMIT + 2,
        forall|j: int| start < j < start + 1 + CONNECT_RETRY_LIMIT ==> (#[trigger] t[j] is Poll),
        forall|j: int| 0 <= j < t.len() ==> !(#[trigger] t[j] is Callback),
        is_stop(t.last()),
        t.last() matches TcpCall::Stop(_, Ok(_)) ==> r == Err::<(), Error>(Error::Network(NetworkError::ConnectionTimeout)),
{
    let s = lemma_attempt_shape(t, by_name, ip, port, r);
    let (off, k) = (s.1, s.2);
    let w = t.skip(off + 1 + k);
    assert(s.0);
    assert(start == off);
    if k < CONNECT_RETRY_LIMIT {
        assert(w[0] == t[off + 1 + k]);
        assert(t[off + 1 + k] is Poll);
    }
    assert(w.len() == 1);
    assert(t.last() == w[0]);
    assert forall|j: int| 0 <= j < t.len() implies !(#[trigger] t[j] is Callback) by {
        if j > off && j < off + 1 + k {
            assert(pending_poll(t[j], s.3));
        }
    }
    assert forall|j: int| start < j < start + 1 + CONNECT_RETRY_LIMIT implies (#[trigger] t[j] is Poll) by {
        assert(pending_poll(t[j], s.3));
    }
}

/// Teardown: a connection attempt stops the connection exactly when a
/// start succeeded, and then as its last call; no earlier call is a stop.
pub proof fn teardown_law(t: Seq<TcpCall>, by_name: bool, ip: IpAddress, port: Port, r: Result<(), Error>)
    requires
        attempt_ok(t, by_name, ip, port, r),
    ensures
        (exists|i: int| 0 <= i < t.len() && #[trigger] is_good_start(t[i])) <==> is_stop(t.last()),
        forall|i: int| 0 <= i < t.len() - 1 ==> !is_stop(#[trigger] t[i]),
{
    match t[0] {
        TcpCall::GetSocket(Err(_)) => {
            assert forall|i: int| 0 <= i < t.len() implies !#[trigger] is_good_start(t[i]) by {}
        },
        TcpCall::GetSocket(Ok(socket)) => {
            if by_name {
                match t[1] {
                    TcpCall::Resolve(Err(_)) => {
                        assert forall|i: int| 0 <= i < t.len() implies !#[trigger] is_good_start(t[i]) by {}
                    },
                    TcpCall::Resolve(Ok(addr)) => {
                        lemma_started_tail(t, 2, socket, addr, port, r);
                    },
                    _ => {},
                }
            } else {
                lemma_started_tail(t, 1, socket, ip, port, r);
            }
        },
        _ => {},
    }
}

/// One call of a connection attempt, with the bus transcript before and
/// after it.
pub type TcpStep = (TcpCall, Seq<BusEvent>, Seq<BusEvent>);

/// The calls of a connection attempt.
pub open spec fn calls(t: Seq<TcpStep>) -> Seq<TcpCall> {
    Seq::new(t.len(), |i: int| t[i].0)
}

/// A recorded call is what the bus transcript shows for it: the command it
/// names, sent and answered between the two transcripts, with the result
/// that reply gives. The callback is the caller's and may do anything.
pub open spec fn step_ok(step: TcpStep, host: Seq<u8>, mode: TransportMode) -> bool {
    let (call, w0, w) = step;
    match call {
        TcpCall::GetSocket(res) => {
            &&& performed(w0, w, NinaCommand::GetSocket, seq![], false)
            &&& res == match outcome(w0, w, NinaCommand::GetSocket, seq![], false) {
                Ok(p) => Ok(first_byte(p)),
                Err(e) => Err(Error::Protocol(e)),
            }
        },
        TcpCall::Resolve(res) => lookup_done(w0, w, host, res),
        TcpCall::Start(socket, ip, port, res) => {
            let params = seq![
                field(1, ip@),
                field(1, port_bytes(port)),
                field(1, seq![socket]),
                field(1, seq![mode_byte(mode)]),
            ];
            &&& performed(w0, w, NinaCommand::StartClientTcp, params, false)
            &&& res == flag_result(outcome(w0, w, NinaCommand::StartClientTcp, params, false), NetworkError::ConnectFailed)
        },
        TcpCall::Poll(socket, res) => {
            &&& performed(w0, w, NinaCommand::GetClientStateTcp, seq![field(1, seq![socket])], false)
            &&& res == match outcome(w0, w, NinaCommand::GetClientStateTcp, seq![field(1, seq![socket])], false) {
                Ok(p) => Ok(connection_state_of(first_byte(p))),
                Err(e) => Err(Error::Protocol(e)),
            }
        },
        TcpCall::Callback => true,
        TcpCall::Stop(socket, res) => {
            &&& performed(w0, w, NinaCommand::StopClientTcp, seq![field(1, seq![socket])], false)
            &&& res == flag_result(outcome(w0, w, NinaCommand::StopClientTcp, seq![field(1, seq![socket])], false), NetworkError::DisconnectFailed)
        },
    }
}

/// Every call is backed by the transcript, each one starting where the
/// previous one ended, the first at `w0` and the last at `w`.
pub open spec fn recorded(t: Seq<TcpStep>, w0: Seq<BusEvent>, w: Seq<BusEvent>, host: Seq<u8>, mode: TransportMode) -> bool {
    &&& t.len() >= 1
    &&& t[0].1 == w0
    &&& t.last().2 == w
    &&& forall|i: int| 0 <= i < t.len() ==> #[trigger] step_ok(t[i], host, mode)
    &&& forall|i: int| 0 <= i < t.len() - 1 ==> #[trigger] t[i].2 == t[i + 1].1
}

proof fn lemma_recorded_concat(a: Seq<TcpStep>, b: Seq<TcpStep>, w0: Seq<BusEvent>, wm: Seq<BusEvent>, w: Seq<BusEvent>, host: Seq<u8>, mode: TransportMode)
    requires
        recorded(a, w0, wm, host, mode),
        recorded(b, wm, w, host, mode),
    ensures
        recorded(a + b, w0, w, host, mode),
        calls(a + b) == calls(a) + calls(b),
{
    let t = a + b;
    assert forall|i: int| 0 <= i < t.len() implies #[trigger] step_ok(t[i], host, mode) by {
        if i < a.len() {
            assert(t[i] == a[i]);
        } else {
            assert(t[i] == b[i - a.len()]);
        }
    }
    assert forall|i: int| 0 <= i < t.len() - 1 implies #[trigger] t[i].2 == t[i + 1].1 by {
        if i < a.len() - 1 {
            assert(t[i] == a[i] && t[i + 1] == a[i + 1]);
        } else if i == a.len() - 1 {
            assert(t[i] == a.last() && t[i + 1] == b[0]);
        } else {
            assert(t[i] == b[i - a.len()] && t[i + 1] == b[i - a.len() + 1]);
        }
    }
    assert(t.last() == b.last());
    assert(calls(a + b) =~= calls(a) + calls(b));
}

proof fn lemma_recorded_push(a: Seq<TcpStep>, s: TcpStep, w0: Seq<BusEvent>, host: Seq<u8>, mode: TransportMode)
    requires
        recorded(a, w0, s.1, host, mode),
        step_ok(s, host, mode),
    ensures
        recorded(a.push(s), w0, s.2, host, mode),
        calls(a.push(s)) == calls(a).push(s.0),
{
    lemma_recorded_single(s, host, mode);
    lemma_recorded_concat(a, seq![s], w0, s.1, s.2, host, mode);
    assert(a + seq![s] =~= a.push(s));
    assert(calls(a) + seq![s.0] =~= calls(a).push(s.0));
    assert(calls(seq![s]) =~= seq![s.0]);
}

proof fn lemma_recorded_single(s: TcpStep, host: Seq<u8>, mode: TransportMode)
    requires
        step_ok(s, host, mode),
    ensures
        recorded(seq![s], s.1, s.2, host, mode),
        calls(seq![s]) == seq![s.0],
{
    assert(calls(seq![s]) =~= seq![s.0]);
}

/// A client that connects to a remote server over TCP and exchanges data
/// with it through the caller's callback.
pub struct TcpClient<B, C> {
    protocol_handler: NinaProtocolHandler<B, C>,
    socket: Option<Socket>,
    server_ip_address: Option<IpAddress>,
    port: Port,
    mode: TransportMode,
    server_hostname: HostnameBuffer,
    attempt: Ghost<Seq<TcpStep>>,
}

impl<B, C> TcpClient<B, C> {
    /// The protocol engine.
    pub closed spec fn handler(&self) -> NinaProtocolHandler<B, C> {
        self.protocol_handler
    }

    /// The calls made by the last connection attempt, in order, each with
    /// the bus transcript before and after it.
    pub closed spec fn attempt_view(&self) -> Seq<TcpStep> {
        self.attempt@
    }

    /// The socket of the current connection.
    pub closed spec fn socket_view(&self) -> Option<Socket> {
        self.socket
    }

    /// The address of the remote server.
    pub closed spec fn address_view(&self) -> Option<IpAddress> {
        self.server_ip_address
    }

    /// The port of the remote server.
    pub closed spec fn port_view(&self) -> Port {
        self.port
    }

    /// The transport mode.
    pub closed spec fn mode_view(&self) -> TransportMode {
        self.mode
    }

    /// The hostname of the remote server's text; empty when connecting by
    /// address.
    pub closed spec fn hostname_view(&self) -> Seq<char> {
        hostname_text(self.server_hostname)
    }
}

impl<B: ByteTransfer, C: EspControlInterface> TcpClient<B, C> {
    /// A client over the driver `wifi`, not yet connected.
    pub fn build(wifi: Wifi<B, C>) -> (r: Self)
        ensures
            r.handler() == wifi.protocol_handler,
            r.address_view() == None::<IpAddress>,
            r.socket_view() == None::<Socket>,
            r.port_view() == 0,
            r.mode_view() == TransportMode::Tcp,
            r.hostname_view() == Seq::<char>::empty(),
    {
        TcpClient {
            protocol_handler: wifi.protocol_handler,
            socket: None,
            server_ip_address: None,
            port: 0,
            mode: TransportMode::Tcp,
            server_hostname: hostname_new(),
            attempt: Ghost(Seq::empty()),
        }
    }

    /// Hands the engine back as a driver.
    pub fn demote_to_network(self) -> (r: Wifi<B, C>)
        ensures
            r.protocol_handler == self.handler(),
    {
        Wifi::build(self.protocol_handler)
    }

    /// The address of the remote server, set by `connect`.
    pub fn server_ip_address(&self) -> (r: Option<IpAddress>)
        ensures
            r == self.address_view(),
    {
        self.server_ip_address
    }

    /// The hostname of the remote server, set by `connect_hostname`; empty
    /// when connecting by address.
    pub fn server_hostname(&self) -> (r: &str)
        ensures
            r@ == self.hostname_view(),
    {
        hostname_as_str(&self.server_hostname)
    }

    /// The port of the remote server, set by a connect call.
    pub fn port(&self) -> (r: Port)
        ensures
            r == self.port_view(),
    {
        self.port
    }

    /// The transport mode, set by a connect call.
    pub fn mode(&self) -> (r: TransportMode)
        ensures
            r == self.mode_view(),
    {
        self.mode
    }

    /// The socket of the current connection, if one was acquired.
    pub fn socket(&self) -> (r: Option<Socket>)
        ensures
            r == self.socket_view(),
    {
        self.socket
    }

    /// Requests a socket handle.
    pub fn get_socket(&mut self) -> (r: Result<Socket, Error>)
        ensures
            performed(old(self).handler().transcript(), final(self).handler().transcript(), NinaCommand::GetSocket, seq![], false),
            r == match outcome(old(self).handler().transcript(), final(self).handler().transcript(), NinaCommand::GetSocket, seq![], false) {
                Ok(p) => Ok(first_byte(p)),
                Err(e) => Err(Error::Protocol(e)),
            },
    {
        self.protocol_handler.get_socket()
    }

    /// Sends `data` to the connected server.
    pub fn send_data(&mut self, data: &str) -> (r: Result<[u8; 1], Error>)
        ensures
            data.spec_bytes().len() > 1024 ==> r == Err::<[u8; 1], Error>(too_large()),
            data.spec_bytes().len() <= 1024 ==> {
                let socket = match old(self).socket_view() {
                    Some(s) => s,
                    None => 0u8,
                };
                let params = seq![field(2, seq![socket]), field(2, data.spec_bytes())];
                let (w0, w) = (old(self).handler().transcript(), final(self).handler().transcript());
                &&& performed(w0, w, NinaCommand::SendDataTcp, params, false)
                &&& match outcome(w0, w, NinaCommand::SendDataTcp, params, false) {
                    Ok(p) => r matches Ok(a) && a@ == seq![first_byte(p)],
                    Err(e) => r == Err::<[u8; 1], Error>(Error::Protocol(e)),
                }
            },
    {
        let socket = match self.socket {
            Some(s) => s,
            None => 0,
        };
        self.protocol_handler.send_data(data, socket)
    }

    /// Connects to `ip`:`port` in `mode`, runs `f` once the connection is
    /// established, and stops the connection on every way out after it was
    /// started.
    pub fn connect<D: DelayMs, F: OnConnected<B, C>>(&mut self, ip: IpAddress, port: Port, mode: TransportMode, delay: &mut D, f: &mut F) -> (r: Result<(), Error>)
        ensures
            attempt_ok(calls(final(self).attempt_view()), false, ip, port, r),
            recorded(final(self).attempt_view(), old(self).handler().transcript(), final(self).handler().transcript(), seq![], mode),
    {
        let ghost w0 = self.protocol_handler.transcript();
        let got = self.get_socket();
        let ghost head = seq![(TcpCall::GetSocket(got), w0, self.protocol_handler.transcript())];
        proof {
            lemma_recorded_single(head[0], seq![], mode);
        }
        let socket = match got {
            Ok(s) => s,
            Err(e) => {
                self.attempt = Ghost(head);
                return Err(e);
            },
        };
        self.socket = Some(socket);
        self.server_ip_address = Some(ip);
        self.server_hostname = hostname_new();
        self.port = port;
        self.mode = mode;
        let ghost wm = self.protocol_handler.transcript();
        let ghost no_host: Seq<u8> = Seq::empty();
        let r = self.connect_common(socket, ip, port, mode, Ghost(no_host), delay, f);
        proof {
            lemma_recorded_concat(head, self.attempt@, w0, wm, self.protocol_handler.transcript(), seq![], mode);
            assert(calls(head) + calls(self.attempt@) == calls(head + self.attempt@));
            assert((calls(head) + calls(self.attempt@)).skip(1) =~= calls(self.attempt@));
        }
        self.attempt = Ghost(head + self.attempt@);
        r
    }

    /// Resolves `hostname`, connects to it on `port` in `mode`, runs `f`
    /// once the connection is established, and stops the connection on
    /// every way out after it was started. A hostname over 255 bytes fails
    /// with `PayloadTooLarge` before anything is sent; an empty one is not
    /// looked up, and the address stored by an earlier connection is used.
    pub fn connect_hostname<D: DelayMs, F: OnConnected<B, C>>(&mut self, hostname: &str, port: Port, mode: TransportMode, delay: &mut D, f: &mut F) -> (r: Result<(), Error>)
        ensures
            hostname.spec_bytes().len() > 255 ==> r == Err::<(), Error>(too_large()) && final(self).handler().transcript() == old(self).handler().transcript(),
            hostname.spec_bytes().len() <= 255 ==> attempt_ok(
                calls(final(self).attempt_view()),
                hostname.spec_bytes().len() > 0,
                stored_address(old(self).address_view()),
                port,
                r,
            ),
            hostname.spec_bytes().len() <= 255 ==> recorded(final(self).attempt_view(), old(self).handler().transcript(), final(self).handler().transcript(), hostname.spec_bytes(), mode),
    {
        let stored = match hostname_from(hostname) {
            Ok(s) => s,
            Err(_) => return Err(Error::Protocol(ProtocolError::PayloadTooLarge)),
        };
        let previous = self.server_ip_address;
        let ghost host = hostname.spec_bytes();
        let ghost w0 = self.protocol_handler.transcript();
        let got = self.get_socket();
        let ghost head = seq![(TcpCall::GetSocket(got), w0, self.protocol_handler.transcript())];
        proof {
            lemma_recorded_single(head[0], host, mode);
        }
        let socket = match got {
            Ok(s) => s,
            Err(e) => {
                self.attempt = Ghost(head);
                return Err(e);
            },
        };
        self.socket = Some(socket);
        self.server_hostname = stored;
        self.port = port;
        self.mode = mode;
        if hostname.len() == 0 {
            let ip = match previous {
                Some(a) => a,
                None => [0, 0, 0, 0],
            };
            let ghost wm = self.protocol_handler.transcript();
            let r = self.connect_common(socket, ip, port, mode, Ghost(host), delay, f);
            proof {
                lemma_recorded_concat(head, self.attempt@, w0, wm, self.protocol_handler.transcript(), host, mode);
                assert(calls(head) + calls(self.attempt@) == calls(head + self.attempt@));
                assert((calls(head) + calls(self.attempt@)).skip(1) =~= calls(self.attempt@));
                assert(ip == stored_address(old(self).address_view()));
            }
            self.attempt = Ghost(head + self.attempt@);
            return r;
        }
        let ghost w1 = self.protocol_handler.transcript();
        let resolved = self.protocol_handler.resolve(hostname);
        let ghost head2 = head.push((TcpCall::Resolve(resolved), w1, self.protocol_handler.transcript()));
        proof {
            lemma_recorded_push(head, head2.last(), w0, host, mode);
            assert(head2 =~= head.push(head2.last()));
            assert(calls(head2) =~= seq![TcpCall::GetSocket(got), TcpCall::Resolve(resolved)]);
        }
        let ip = match resolved {
            Ok(ip) => ip,
            Err(e) => {
                self.attempt = Ghost(head2);
                return Err(e);
            },
        };
        self.server_ip_address = Some(ip);
        let ghost wm = self.protocol_handler.transcript();
        let r = self.connect_common(socket, ip, port, mode, Ghost(host), delay, f);
        proof {
            lemma_recorded_concat(head2, self.attempt@, w0, wm, self.protocol_handler.transcript(), host, mode);
            assert((calls(head2) + calls(self.attempt@)).skip(2) =~= calls(self.attempt@));
        }
        self.attempt = Ghost(head2 + self.attempt@);
        r
    }

    /// Starts the connection, polls its state within the retry budget, runs
    /// `f` once it is established, and stops it on every way out.
    fn connect_common<D: DelayMs, F: OnConnected<B, C>>(&mut self, socket: Socket, ip: IpAddress, port: Port, mode: TransportMode, host: Ghost<Seq<u8>>, delay: &mut D, f: &mut F) -> (r: Result<(), Error>)
        ensures
            started_ok(calls(final(self).attempt_view()), socket, ip, port, r),
            recorded(final(self).attempt_view(), old(self).handler().transcript(), final(self).handler().transcript(), host@, mode),
    {
        let ghost w0 = self.protocol_handler.transcript();
        let started = self.protocol_handler.start_client_tcp(socket, ip, port, &mode);
        let ghost first = seq![(TcpCall::Start(socket, ip, port, started), w0, self.protocol_handler.transcript())];
        proof {
            lemma_recorded_single(first[0], host@, mode);
        }
        match started {
            Ok(_) => {},
            Err(e) => {
                self.attempt = Ghost(first);
                return Err(e);
            },
        }
        let ghost mut trace: Seq<TcpStep> = first;
        delay.delay_ms(START_SETTLE_MS);
        let mut retry_limit: u16 = CONNECT_RETRY_LIMIT;
        while retry_limit > 0
            invariant
                retry_limit <= CONNECT_RETRY_LIMIT,
                w0 == old(self).handler().transcript(),
                trace.len() == 1 + CONNECT_RETRY_LIMIT - retry_limit,
                calls(trace)[0] == TcpCall::Start(socket, ip, port, Ok(())),
                forall|i: int| 1 <= i < trace.len() ==> pending_poll(#[trigger] calls(trace)[i], socket),
                recorded(trace, w0, self.protocol_handler.transcript(), host@, mode),
            decreases retry_limit,
        {
            let ghost wp = self.protocol_handler.transcript();
            let polled = self.protocol_handler.get_client_state_tcp(socket);
            let ghost poll_step = (TcpCall::Poll(socket, polled), wp, self.protocol_handler.transcript());
            proof {
                lemma_recorded_push(trace, poll_step, w0, host@, mode);
            }
            match polled {
                Ok(ConnectionState::Established) => {
                    let ghost wc = self.protocol_handler.transcript();
                    f.on_connected(self);
                    let ghost ws = self.protocol_handler.transcript();
                    let stopped = self.protocol_handler.stop_client_tcp(socket, &mode);
                    let ghost cb_step = (TcpCall::Callback, wc, ws);
                    let ghost stop_step = (TcpCall::Stop(socket, stopped), ws, self.protocol_handler.transcript());
                    let ghost t = trace.push(poll_step).push(cb_step).push(stop_step);
                    let ghost rr = match stopped {
                        Err(e) => Err(e),
                        Ok(_) => Ok(()),
                    };
                    proof {
                        lemma_recorded_push(trace.push(poll_step), cb_step, w0, host@, mode);
                        lemma_recorded_push(trace.push(poll_step).push(cb_step), stop_step, w0, host@, mode);
                        let ct = calls(t);
                        assert(calls(trace.push(poll_step)) == calls(trace).push(poll_step.0));
                        let tail = seq![poll_step.0, cb_step.0, stop_step.0];
                        assert(ct.skip(1) =~= calls(trace).skip(1) + tail);
                        let k = trace.len() - 1;
                        assert((calls(trace).skip(1) + tail).skip(k) =~= tail);
                        assert(polling_end(ct.skip(1).skip(k), k, socket, rr));
                        assert forall|i: int| 0 <= i < k implies pending_poll(#[trigger] ct.skip(1)[i], socket) by {
                            assert(ct.skip(1)[i] == calls(trace)[i + 1]);
                        }
                    }
                    self.attempt = Ghost(t);
                    return match stopped {
                        Err(e) => Err(e),
                        Ok(_) => Ok(()),
                    };
                },
                Ok(state) => {
                    proof {
                        trace = trace.push(poll_step);
                    }
                    delay.delay_ms(POLL_INTERVAL_MS);
                    retry_limit = retry_limit - 1;
                },
                Err(error) => {
                    let ghost ws = self.protocol_handler.transcript();
                    let stopped = self.protocol_handler.stop_client_tcp(socket, &mode);
                    let ghost stop_step = (TcpCall::Stop(socket, stopped), ws, self.protocol_handler.transcript());
                    let ghost t = trace.push(poll_step).push(stop_step);
                    let ghost rr = match stopped {
                        Err(e) => Err(e),
                        Ok(_) => Err(error),
                    };
                    proof {
                        lemma_recorded_push(trace.push(poll_step), stop_step, w0, host@, mode);
                        let ct = calls(t);
                        let tail = seq![poll_step.0, stop_step.0];
                        assert(ct.skip(1) =~= calls(trace).skip(1) + tail);
                        let k = trace.len() - 1;
                        assert((calls(trace).skip(1) + tail).skip(k) =~= tail);
                        assert(polling_end(ct.skip(1).skip(k), k, socket, rr));
                        assert forall|i: int| 0 <= i < k implies pending_poll(#[trigger] ct.skip(1)[i], socket) by {
                            assert(ct.skip(1)[i] == calls(trace)[i + 1]);
                        }
                    }
                    self.attempt = Ghost(t);
                    return match stopped {
                        Err(e) => Err(e),
                        Ok(_) => Err(error),
                    };
                },
            }
        }
        let ghost ws = self.protocol_handler.transcript();
        let stopped = self.protocol_handler.stop_client_tcp(socket, &mode);
        let ghost stop_step = (TcpCall::Stop(socket, stopped), ws, self.protocol_handler.transcript());
        let ghost t = trace.push(stop_step);
        let ghost rr = match stopped {
            Err(e) => Err(e),
            Ok(_) => Err(Error::Network(NetworkError::ConnectionTimeout)),
        };
        proof {
            lemma_recorded_push(trace, stop_step, w0, host@, mode);
            let ct = calls(t);
            let tail = seq![stop_step.0];
            assert(ct.skip(1) =~= calls(trace).skip(1) + tail);
            let k = trace.len() - 1;
            assert((calls(trace).skip(1) + tail).skip(k) =~= tail);
            assert(polling_end(ct.skip(1).skip(k), k, socket, rr));
            assert forall|i: int| 0 <= i < k implies pending_poll(#[trigger] ct.skip(1)[i], socket) by {
                assert(ct.skip(1)[i] == calls(trace)[i + 1]);
            }
        }
        self.attempt = Ghost(t);
        match stopped {
            Err(e) => Err(e),
            Ok(_) => Err(Error::Network(NetworkError::ConnectionTimeout)),
        }
    }
}

} // verus!
