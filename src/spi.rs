//! The protocol engine: command framing, response parsing and the
//! per-command facade, over a byte-wide serial bus.
use vstd::prelude::*;

use crate::gpio::{DelayMs, EspControlInterface};
use crate::protocol::operation::{param_list_as_slice, Operation};
use crate::protocol::{
    opcode, NinaAbstractParam, NinaCommand, ProtocolError, MAX_NINA_PARAMS,
    MAX_NINA_RESPONSE_LENGTH,
};
use crate::network::{
    connection_state_of, mode_byte, ConnectionState, IpAddress, NetworkError, Port, Socket,
    TransportMode,
};
use crate::protocol::{
    length_field, too_large, NinaByteParam, NinaLargeArrayParam, NinaSmallArrayParam,
    NinaWordParam,
};
use crate::wifi::{connection_status_of, ConnectionStatus};
use crate::{version_of, Error, FirmwareVersion};
use vstd::string::*;

verus! {

/// Start of a frame.
pub const START_BYTE: u8 = 0xE0;

/// End of a frame.
pub const END_BYTE: u8 = 0xEE;

/// Bit set on a reply's opcode.
pub const REPLY_BIT: u8 = 0x80;

/// Filler byte sent while reading.
pub const DUMMY_BYTE: u8 = 0xFF;

/// Sent by the firmware in place of a start byte to signal an error.
pub const ERROR_BYTE: u8 = 0xEF;

/// How many bytes are read while waiting for a start byte.
pub const START_RETRY_LIMIT: u16 = 1000;

/// A full-duplex byte transfer on the serial bus.
pub trait ByteTransfer {
    /// Shifts `word` out and returns the byte shifted in.
    fn transfer(&mut self, word: u8) -> u8;
}

/// One event on the bus, as the engine performs it.
pub enum BusEvent {
    /// The handshake that hands the bus to the host.
    Select,
    /// The release of the bus.
    Deselect,
    /// One byte out, one byte in.
    Transfer { sent: u8, received: u8 },
}

/// The event moved a byte each way.
pub open spec fn is_transfer(e: BusEvent) -> bool {
    e is Transfer
}

/// The byte a transfer sent.
pub open spec fn sent_of(e: BusEvent) -> u8 {
    match e {
        BusEvent::Transfer { sent, .. } => sent,
        _ => 0,
    }
}

/// The byte a transfer received.
pub open spec fn received_of(e: BusEvent) -> u8 {
    match e {
        BusEvent::Transfer { received, .. } => received,
        _ => 0,
    }
}

/// `w` starts with all of `w0`.
pub open spec fn keeps(w0: Seq<BusEvent>, w: Seq<BusEvent>) -> bool {
    &&& w0.len() <= w.len()
    &&& forall|k: int| 0 <= k < w0.len() ==> #[trigger] w[k] == w0[k]
}

/// From index `start` on, `w` holds transfers that sent `bytes`.
pub open spec fn sends_at(w: Seq<BusEvent>, start: int, bytes: Seq<u8>) -> bool {
    &&& 0 <= start
    &&& start + bytes.len() <= w.len()
    &&& forall|k: int|
        0 <= k < bytes.len() ==> is_transfer(#[trigger] w[start + k]) && sent_of(w[start + k])
            == bytes[k]
}

/// The bytes received by the `n` transfers from index `start` on.
pub open spec fn received_at(w: Seq<BusEvent>, start: int, n: int) -> Seq<u8> {
    Seq::new(n as nat, |k: int| received_of(w[start + k]))
}

/// `n` filler bytes.
pub open spec fn dummies(n: nat) -> Seq<u8> {
    Seq::new(n, |k: int| DUMMY_BYTE)
}

/// The encoded parameters one after another.
pub open spec fn concat_all(ps: Seq<Seq<u8>>) -> Seq<u8>
    decreases ps.len(),
{
    if ps.len() == 0 {
        Seq::empty()
    } else {
        concat_all(ps.drop_last()) + ps.last()
    }
}

/// How many filler bytes bring a frame of `n` bytes to a multiple of four.
pub open spec fn pad_count(n: nat) -> nat {
    if n % 4 == 0 {
        0
    } else {
        (4 - n % 4) as nat
    }
}

/// A request before alignment: start, opcode with the reply bit cleared,
/// parameter count, the encoded parameters, end.
pub open spec fn unpadded_frame(op: u8, params: Seq<Seq<u8>>) -> Seq<u8> {
    seq![START_BYTE, op & 0x7f, params.len() as u8] + concat_all(params) + seq![END_BYTE]
}

/// A request as it goes on the wire, padded to a multiple of four bytes.
pub open spec fn request_frame(op: u8, params: Seq<Seq<u8>>) -> Seq<u8> {
    let u = unpadded_frame(op, params);
    u + dummies(pad_count(u.len()))
}

/// The wire form of an operation's parameters.
pub open spec fn encoded_params(ps: Seq<NinaAbstractParam>) -> Seq<Seq<u8>> {
    Seq::new(ps.len(), |i: int| ps[i].encoded())
}

/// The request frame of an operation.
pub open spec fn operation_frame(op: Operation) -> Seq<u8> {
    request_frame(opcode(op.command), encoded_params(op.params_view()))
}

/// The outcome of waiting for `wanted` from position `i` with `tries` reads
/// left, and the number of bytes read by then.
pub open spec fn scan_for(rx: Seq<u8>, i: int, tries: nat, wanted: u8) -> (Result<
    int,
    ProtocolError,
>, int)
    decreases tries,
{
    if tries == 0 {
        (Err(ProtocolError::CommunicationTimeout), i)
    } else if rx[i] == ERROR_BYTE {
        (Err(ProtocolError::NinaProtocolVersionMismatch), i + 3)
    } else if rx[i] == wanted {
        (Ok(i + 1), i + 1)
    } else {
        scan_for(rx, i + 1, (tries - 1) as nat, wanted)
    }
}

/// The outcome of checking a reply's header (start byte, echoed opcode,
/// parameter count): the position after it, and the number of bytes read.
pub open spec fn header_check(rx: Seq<u8>, reply: u8, nparams: u8) -> (Result<int, ProtocolError>, int) {
    let (found, used) = scan_for(rx, 0, START_RETRY_LIMIT as nat, START_BYTE);
    match found {
        Err(e) => (Err(e), used),
        Ok(j) => if rx[j] != reply {
            (Err(ProtocolError::InvalidCommand), j + 1)
        } else if rx[j + 1] != nparams {
            (Err(ProtocolError::InvalidNumberOfParameters), j + 2)
        } else {
            (Ok(j + 2), j + 2)
        },
    }
}

/// The payload of a reply body (length field, payload, end byte) and the
/// number of bytes read. The length field is one byte, at most 8, or with
/// `wide` two bytes big-endian, of which at most a buffer's worth is read.
pub open spec fn body_parse(rx: Seq<u8>, wide: bool) -> (Result<Seq<u8>, ProtocolError>, int) {
    if !wide {
        let len = rx[0] as int;
        if len > MAX_NINA_PARAMS {
            (Err(ProtocolError::TooManyParameters), 1)
        } else {
            (Ok(rx.subrange(1, 1 + len)), 2 + len)
        }
    } else {
        let declared = rx[0] as int * 256 + rx[1] as int;
        let len = if declared > MAX_NINA_RESPONSE_LENGTH {
            MAX_NINA_RESPONSE_LENGTH as int
        } else {
            declared
        };
        (Ok(rx.subrange(2, 2 + len)), 3 + len)
    }
}

/// The payload a reply carries and the number of bytes read for it, from
/// the bytes `rx` received after the bus was acquired.
pub open spec fn parse_response(rx: Seq<u8>, reply: u8, nparams: u8, wide: bool) -> (Result<
    Seq<u8>,
    ProtocolError,
>, int) {
    let (h, used) = header_check(rx, reply, nparams);
    match h {
        Err(e) => (Err(e), used),
        Ok(j) => {
            let (b, more) = body_parse(rx.skip(j), wide);
            (b, j + more)
        },
    }
}

/// A payload placed at the start of a zeroed response buffer.
pub open spec fn response_buffer(payload: Seq<u8>) -> Seq<u8> {
    payload + Seq::new((1024 - payload.len()) as nat, |k: int| 0u8)
}

/// The reply byte of a command: its opcode with the reply bit set.
pub open spec fn reply_byte(cmd: NinaCommand) -> u8 {
    opcode(cmd) | REPLY_BIT
}

/// From `w0` to `w` the engine sent `frame` in one bus session.
pub open spec fn request_sent(w0: Seq<BusEvent>, w: Seq<BusEvent>, frame: Seq<u8>) -> bool {
    let s = w0.len() as int;
    &&& keeps(w0, w)
    &&& w.len() == s + frame.len() + 2
    &&& w[s] is Select
    &&& sends_at(w, s + 1, frame)
    &&& w.last() is Deselect
}

/// The bytes received in the session from `w0` to `w`.
pub open spec fn session_received(w0: Seq<BusEvent>, w: Seq<BusEvent>) -> Seq<u8> {
    received_at(w, w0.len() as int + 1, w.len() - w0.len() - 2)
}

/// From `w0` to `w` the engine read one reply in one bus session, sending
/// only filler bytes, and stopped where the reply format says.
pub open spec fn reply_read(w0: Seq<BusEvent>, w: Seq<BusEvent>, reply: u8, nparams: u8, wide: bool) -> bool {
    let s = w0.len() as int;
    let n = w.len() - s - 2;
    &&& keeps(w0, w)
    &&& w.len() >= s + 2
    &&& w[s] is Select
    &&& sends_at(w, s + 1, dummies(n as nat))
    &&& w.last() is Deselect
    &&& parse_response(session_received(w0, w), reply, nparams, wide).1 == n
}

/// The outcome of the reply read from `w0` to `w`.
pub open spec fn reply_outcome(w0: Seq<BusEvent>, w: Seq<BusEvent>, reply: u8, nparams: u8, wide: bool) -> Result<Seq<u8>, ProtocolError> {
    parse_response(session_received(w0, w), reply, nparams, wide).0
}

/// A reply buffer returned by the engine stands for `out`.
pub open spec fn returns_reply(r: Result<NinaResponseBuffer, Error>, out: Result<Seq<u8>, ProtocolError>) -> bool {
    match r {
        Ok(buf) => out matches Ok(p) && buf@ == response_buffer(p),
        Err(e) => out matches Err(pe) && e == Error::Protocol(pe),
    }
}

/// Bytes that are neither the error marker nor the awaited byte only use
/// up tries: skipping `m` of them leaves the outcome of the wait unchanged.
proof fn lemma_scan_skip(rx: Seq<u8>, i: int, m: int, tries: nat, wanted: u8)
    requires
        0 <= m <= tries,
        forall|k: int| i <= k < i + m ==> rx[k] != ERROR_BYTE && rx[k] != wanted,
    ensures
        scan_for(rx, i, tries, wanted) == scan_for(rx, i + m, (tries - m) as nat, wanted),
    decreases m,
{
    if m > 0 {
        lemma_scan_skip(rx, i + 1, m - 1, (tries - 1) as nat, wanted);
    }
}

/// The scan reads only the bytes before the count it reports.
proof fn lemma_scan_prefix(rx: Seq<u8>, rx2: Seq<u8>, i: int, tries: nat, wanted: u8)
    requires
        0 <= i,
        i <= scan_for(rx, i, tries, wanted).1 <= rx.len(),
        rx.len() <= rx2.len(),
        forall|k: int| 0 <= k < rx.len() ==> rx2[k] == rx[k],
    ensures
        scan_for(rx2, i, tries, wanted) == scan_for(rx, i, tries, wanted),
    decreases tries,
{
    if tries > 0 && rx[i] != ERROR_BYTE && rx[i] != wanted {
        lemma_scan_count(rx, i + 1, (tries - 1) as nat, wanted);
        lemma_scan_prefix(rx, rx2, i + 1, (tries - 1) as nat, wanted);
    }
}

/// A scan never reports fewer bytes than it started at.
proof fn lemma_scan_count(rx: Seq<u8>, i: int, tries: nat, wanted: u8)
    ensures
        i <= scan_for(rx, i, tries, wanted).1,
        scan_for(rx, i, tries, wanted).0 matches Ok(j) ==> j == scan_for(rx, i, tries, wanted).1,
    decreases tries,
{
    if tries > 0 && rx[i] != ERROR_BYTE && rx[i] != wanted {
        lemma_scan_count(rx, i + 1, (tries - 1) as nat, wanted);
    }
}


/// From `w0` to `w` the engine sent exactly `bytes`, one transfer each.
pub open spec fn sent_now(w0: Seq<BusEvent>, w: Seq<BusEvent>, bytes: Seq<u8>) -> bool {
    &&& keeps(w0, w)
    &&& w.len() == w0.len() + bytes.len()
    &&& sends_at(w, w0.len() as int, bytes)
}

proof fn lemma_keeps_trans(w0: Seq<BusEvent>, w1: Seq<BusEvent>, w2: Seq<BusEvent>)
    requires
        keeps(w0, w1),
        keeps(w1, w2),
    ensures
        keeps(w0, w2),
{
    assert forall|k: int| 0 <= k < w0.len() implies #[trigger] w2[k] == w0[k] by {
        assert(w2[k] == w1[k]);
    }
}

proof fn lemma_sends_keep(w0: Seq<BusEvent>, w: Seq<BusEvent>, start: int, bytes: Seq<u8>)
    requires
        keeps(w0, w),
        sends_at(w0, start, bytes),
    ensures
        sends_at(w, start, bytes),
{
    assert forall|k: int| 0 <= k < bytes.len() implies is_transfer(#[trigger] w[start + k])
        && sent_of(w[start + k]) == bytes[k] by {
        assert(w0[start + k] == w[start + k]);
    }
}

proof fn lemma_sent_concat(
    w0: Seq<BusEvent>,
    w1: Seq<BusEvent>,
    w2: Seq<BusEvent>,
    x: Seq<u8>,
    y: Seq<u8>,
)
    requires
        sent_now(w0, w1, x),
        sent_now(w1, w2, y),
    ensures
        sent_now(w0, w2, x + y),
{
    lemma_keeps_trans(w0, w1, w2);
    lemma_sends_keep(w1, w2, w0.len() as int, x);
    let s = w0.len() as int;
    assert forall|k: int| 0 <= k < (x + y).len() implies is_transfer(#[trigger] w2[s + k])
        && sent_of(w2[s + k]) == (x + y)[k] by {
        if k >= x.len() {
            let k2 = k - x.len();
            assert(w2[w1.len() as int + k2] == w2[s + k]);
        }
    }
}

proof fn lemma_received_keep(w0: Seq<BusEvent>, w: Seq<BusEvent>, start: int, n: int)
    requires
        keeps(w0, w),
        0 <= start,
        0 <= n,
        start + n <= w0.len(),
    ensures
        received_at(w, start, n) == received_at(w0, start, n),
{
    assert forall|k: int| 0 <= k < n implies #[trigger] w[start + k] == w0[start + k] by {}
    assert(received_at(w, start, n) =~= received_at(w0, start, n));
}

proof fn lemma_received_split(w: Seq<BusEvent>, start: int, a: int, b: int)
    requires
        0 <= a,
        0 <= b,
    ensures
        received_at(w, start, a + b) == received_at(w, start, a) + received_at(w, start + a, b),
{
    assert forall|k: int| 0 <= k < a + b implies #[trigger] received_at(w, start, a + b)[k] == (
    received_at(w, start, a) + received_at(w, start + a, b))[k] by {
        if k >= a {
            assert(start + a + (k - a) == start + k);
        }
    }
    assert(received_at(w, start, a + b) =~= received_at(w, start, a) + received_at(w, start + a, b));
}

proof fn lemma_dummies_concat(a: nat, b: nat)
    ensures
        dummies(a) + dummies(b) == dummies(a + b),
{
    assert(dummies(a) + dummies(b) =~= dummies(a + b));
}

/// The header check reads only the bytes before the count it reports.
proof fn lemma_header_prefix(rx: Seq<u8>, rx2: Seq<u8>, reply: u8, nparams: u8)
    requires
        header_check(rx, reply, nparams).1 <= rx.len() <= rx2.len(),
        forall|k: int| 0 <= k < rx.len() ==> rx2[k] == rx[k],
    ensures
        header_check(rx2, reply, nparams) == header_check(rx, reply, nparams),
{
    lemma_scan_count(rx, 0, START_RETRY_LIMIT as nat, START_BYTE);
    lemma_scan_prefix(rx, rx2, 0, START_RETRY_LIMIT as nat, START_BYTE);
}

/// A parameter on the wire: a length field of `size` bytes, then `data`.
pub open spec fn field(size: nat, data: Seq<u8>) -> Seq<u8> {
    length_field(data.len(), size) + data
}

/// The request frame of `cmd` with the encoded parameters `params`.
pub open spec fn command_frame(cmd: NinaCommand, params: Seq<Seq<u8>>) -> Seq<u8> {
    request_frame(opcode(cmd), params)
}

/// From `w0` to `w` the engine sent `cmd` with `params` in one bus session
/// and then read the one-parameter reply in a second one.
pub open spec fn performed(w0: Seq<BusEvent>, w: Seq<BusEvent>, cmd: NinaCommand, params: Seq<Seq<u8>>, wide: bool) -> bool {
    let frame = command_frame(cmd, params);
    let mid = w.take(w0.len() + frame.len() + 2 as int);
    &&& w0.len() + frame.len() + 2 <= w.len()
    &&& request_sent(w0, mid, frame)
    &&& reply_read(mid, w, reply_byte(cmd), 1, wide)
}

/// The outcome of the reply read in `performed`.
pub open spec fn outcome(w0: Seq<BusEvent>, w: Seq<BusEvent>, cmd: NinaCommand, params: Seq<Seq<u8>>, wide: bool) -> Result<Seq<u8>, ProtocolError> {
    let frame = command_frame(cmd, params);
    let mid = w.take(w0.len() + frame.len() + 2 as int);
    reply_outcome(mid, w, reply_byte(cmd), 1, wide)
}

/// The first byte of the response buffer holding `payload`.
pub open spec fn first_byte(payload: Seq<u8>) -> u8 {
    response_buffer(payload)[0]
}

/// A protocol outcome carried into the crate's error type.
pub open spec fn unit_result(out: Result<Seq<u8>, ProtocolError>) -> Result<(), Error> {
    match out {
        Ok(_) => Ok(()),
        Err(e) => Err(Error::Protocol(e)),
    }
}

/// A reply whose first byte is a success flag (`1`), with the error
/// returned for any other flag.
pub open spec fn flag_result(out: Result<Seq<u8>, ProtocolError>, failure: NetworkError) -> Result<(), Error> {
    match out {
        Ok(p) => if first_byte(p) == 1 {
            Ok(())
        } else {
            Err(Error::Network(failure))
        },
        Err(e) => Err(Error::Protocol(e)),
    }
}

/// The address a hostname lookup returned: the first four bytes of the
/// response, where all-ones means "not found".
pub open spec fn lookup_result(buf: Seq<u8>) -> Result<IpAddress, Error> {
    if buf[0] == 255 && buf[1] == 255 && buf[2] == 255 && buf[3] == 255 {
        Err(Error::Network(NetworkError::DnsResolveFailed))
    } else {
        Ok([buf[0], buf[1], buf[2], buf[3]])
    }
}

/// The second DNS server's bytes: all zero when there is none.
pub open spec fn dns2_bytes(ip2: Option<IpAddress>) -> Seq<u8> {
    match ip2 {
        Some(a) => a@,
        None => seq![0u8, 0u8, 0u8, 0u8],
    }
}

/// The bytes of a port, big-endian.
pub open spec fn port_bytes(port: Port) -> Seq<u8> {
    seq![(port / 256) as u8, (port % 256) as u8]
}

/// After the request round trip from `w0` to `wm`, the rest of a lookup of
/// `host` up to `w` returned `r`: it stops there unless the request was
/// acknowledged with `1`, and otherwise fetches the address.
pub open spec fn lookup_rest(w0: Seq<BusEvent>, wm: Seq<BusEvent>, w: Seq<BusEvent>, host: Seq<u8>, r: Result<IpAddress, Error>) -> bool {
    let ack = flag_result(
        outcome(w0, wm, NinaCommand::ReqHostByName, seq![field(1, host)], false),
        NetworkError::DnsResolveFailed,
    );
    match ack {
        Err(e) => r == Err::<IpAddress, Error>(e) && w == wm,
        Ok(_) => {
            &&& performed(wm, w, NinaCommand::GetHostByName, seq![], false)
            &&& r == match outcome(wm, w, NinaCommand::GetHostByName, seq![], false) {
                Ok(p) => lookup_result(response_buffer(p)),
                Err(e) => Err(Error::Protocol(e)),
            }
        },
    }
}

/// From `w0` to `w` a hostname lookup of `host` ran and returned `r`.
pub open spec fn lookup_done(w0: Seq<BusEvent>, w: Seq<BusEvent>, host: Seq<u8>, r: Result<IpAddress, Error>) -> bool {
    exists|wm: Seq<BusEvent>|
        #[trigger] performed(w0, wm, NinaCommand::ReqHostByName, seq![field(1, host)], false)
            && lookup_rest(w0, wm, w, host, r)
}

proof fn lemma_performed(
    w0: Seq<BusEvent>,
    w1: Seq<BusEvent>,
    w2: Seq<BusEvent>,
    cmd: NinaCommand,
    params: Seq<Seq<u8>>,
    wide: bool,
)
    requires
        request_sent(w0, w1, command_frame(cmd, params)),
        reply_read(w1, w2, reply_byte(cmd), 1, wide),
    ensures
        performed(w0, w2, cmd, params, wide),
        outcome(w0, w2, cmd, params, wide) == reply_outcome(w1, w2, reply_byte(cmd), 1, wide),
{
    assert(w2.take(w1.len() as int) =~= w1);
}

/// Start byte wait: when the firmware's error byte is the first marker,
/// within the retry budget, the reply is a version mismatch, and exactly the
/// bytes up to it and the two after it are read.
pub proof fn version_mismatch_law(rx: Seq<u8>, reply: u8, nparams: u8, wide: bool, k: int)
    requires
        0 <= k < START_RETRY_LIMIT,
        rx[k] == ERROR_BYTE,
        forall|j: int| 0 <= j < k ==> rx[j] != ERROR_BYTE && rx[j] != START_BYTE,
    ensures
        parse_response(rx, reply, nparams, wide) == (Err::<Seq<u8>, ProtocolError>(
            ProtocolError::NinaProtocolVersionMismatch,
        ), k + 3),
{
    lemma_scan_skip(rx, 0, k, START_RETRY_LIMIT as nat, START_BYTE);
}

/// Start byte wait: when none of the first 1000 bytes is the start byte or
/// the error byte, the reply times out after exactly those 1000 reads.
pub proof fn communication_timeout_law(rx: Seq<u8>, reply: u8, nparams: u8, wide: bool)
    requires
        forall|j: int| 0 <= j < START_RETRY_LIMIT ==> rx[j] != ERROR_BYTE && rx[j] != START_BYTE,
    ensures
        parse_response(rx, reply, nparams, wide) == (Err::<Seq<u8>, ProtocolError>(
            ProtocolError::CommunicationTimeout,
        ), START_RETRY_LIMIT as int),
{
    lemma_scan_skip(rx, 0, START_RETRY_LIMIT as int, START_RETRY_LIMIT as nat, START_BYTE);
}

/// Reply header: once the start byte is found at `k`, a wrong echoed opcode
/// is `InvalidCommand` (the count is not read), a wrong parameter count is
/// `InvalidNumberOfParameters`, and a one-byte length over 8 is
/// `TooManyParameters` with nothing read after it.
pub proof fn header_law(rx: Seq<u8>, reply: u8, nparams: u8, wide: bool, k: int)
    requires
        0 <= k < START_RETRY_LIMIT,
        k + 4 <= rx.len(),
        rx[k] == START_BYTE,
        forall|j: int| 0 <= j < k ==> rx[j] != ERROR_BYTE && rx[j] != START_BYTE,
    ensures
        rx[k + 1] != reply ==> parse_response(rx, reply, nparams, wide) == (Err::<Seq<u8>, ProtocolError>(
            ProtocolError::InvalidCommand,
        ), k + 2),
        rx[k + 1] == reply && rx[k + 2] != nparams ==> parse_response(rx, reply, nparams, wide) == (Err::<
            Seq<u8>,
            ProtocolError,
        >(ProtocolError::InvalidNumberOfParameters), k + 3),
        rx[k + 1] == reply && rx[k + 2] == nparams && !wide && rx[k + 3] > 8 ==> parse_response(rx, reply, nparams, wide) == (
        Err::<Seq<u8>, ProtocolError>(ProtocolError::TooManyParameters), k + 4),
{
    lemma_scan_skip(rx, 0, k, START_RETRY_LIMIT as nat, START_BYTE);
    assert(rx.skip(k + 3)[0] == rx[k + 3]);
}

/// The frame size the alignment rule speaks of: 4 (start, opcode, count,
/// end) plus each parameter's length-field size and payload length.
pub open spec fn frame_size(ps: Seq<NinaAbstractParam>) -> nat
    decreases ps.len(),
{
    if ps.len() == 0 {
        4
    } else {
        frame_size(ps.drop_last()) + ps.last().size_view() + ps.last().data_view().len()
    }
}

proof fn lemma_concat_size(ps: Seq<NinaAbstractParam>)
    requires
        forall|i: int| 0 <= i < ps.len() ==> #[trigger] ps[i].wf(),
    ensures
        concat_all(encoded_params(ps)).len() + 4 == frame_size(ps),
    decreases ps.len(),
{
    if ps.len() > 0 {
        let init = ps.drop_last();
        assert forall|i: int| 0 <= i < init.len() implies #[trigger] init[i].wf() by {
            assert(init[i] == ps[i]);
        }
        lemma_concat_size(init);
        assert(encoded_params(ps).drop_last() =~= encoded_params(init));
        assert(ps[ps.len() - 1].wf());
        ps.last().lemma_length_field_size();
    }
}

/// Alignment: a request is sent as its unpadded frame followed by filler
/// bytes; when the frame size (4 plus each parameter's length-field size and
/// payload length) is not a multiple of four there are exactly
/// `4 - size % 4` of them, otherwise none, and the whole is a multiple of
/// four.
pub proof fn padding_law(operation: Operation)
    requires
        operation.wf(),
    ensures
        ({
            let size = frame_size(operation.params_view());
            let u = unpadded_frame(opcode(operation.command), encoded_params(operation.params_view()));
            let f = operation_frame(operation);
            &&& u.len() == size
            &&& size % 4 != 0 ==> f == u + dummies((4 - size % 4) as nat)
            &&& size % 4 == 0 ==> f == u
            &&& f.len() % 4 == 0
        }),
{
    lemma_concat_size(operation.params_view());
    let u = unpadded_frame(opcode(operation.command), encoded_params(operation.params_view()));
    assert(u + dummies(0) =~= u);
}

/// The buffer a response is read into, the payload first.
pub type NinaResponseBuffer = [u8; MAX_NINA_RESPONSE_LENGTH];

/// The engine: a bus, its control lines, and a record of every bus event it
/// performed, which the contracts speak of.
pub struct NinaProtocolHandler<B, C> {
    /// The serial bus.
    pub bus: B,
    /// The control lines.
    pub control_pins: C,
    wire: Ghost<Seq<BusEvent>>,
}

impl<B, C> NinaProtocolHandler<B, C> {
    /// Every bus event the engine performed so far, oldest first.
    pub closed spec fn transcript(&self) -> Seq<BusEvent> {
        self.wire@
    }

    /// The bus the engine owns.
    pub closed spec fn bus_view(&self) -> B {
        self.bus
    }
}

impl<B: ByteTransfer, C: EspControlInterface> NinaProtocolHandler<B, C> {
    /// An engine over `bus` and `control_pins` that has done nothing yet.
    pub fn new(bus: B, control_pins: C) -> (r: Self)
        ensures
            r.transcript() == Seq::<BusEvent>::empty(),
            r.bus_view() == bus,
    {
        NinaProtocolHandler { bus, control_pins, wire: Ghost(Seq::empty()) }
    }

    /// Gives back the bus.
    pub fn into_bus(self) -> (r: B)
        ensures
            r == self.bus_view(),
    {
        self.bus
    }

    /// Puts the control lines in their idle state.
    pub fn init(&mut self)
        ensures
            final(self).transcript() == old(self).transcript(),
    {
        self.control_pins.init();
    }

    /// Resets the co-processor and waits for it to boot.
    pub fn reset<D: DelayMs>(&mut self, delay: &mut D)
        ensures
            final(self).transcript() == old(self).transcript(),
    {
        self.control_pins.reset(delay);
    }

    /// Acquires the bus.
    fn select(&mut self)
        ensures
            final(self).transcript() == old(self).transcript().push(BusEvent::Select),
    {
        self.control_pins.wait_for_esp_select();
        self.wire = Ghost(self.wire@.push(BusEvent::Select));
    }

    /// Releases the bus.
    fn deselect(&mut self)
        ensures
            final(self).transcript() == old(self).transcript().push(BusEvent::Deselect),
    {
        self.control_pins.esp_deselect();
        self.wire = Ghost(self.wire@.push(BusEvent::Deselect));
    }

    /// Sends `word` and returns the byte received meanwhile.
    fn exchange(&mut self, word: u8) -> (r: u8)
        ensures
            final(self).transcript() == old(self).transcript().push(BusEvent::Transfer { sent: word, received: r }),
    {
        let r = self.bus.transfer(word);
        self.wire = Ghost(self.wire@.push(BusEvent::Transfer { sent: word, received: r }));
        r
    }

    /// Sends one byte, ignoring what comes back.
    fn send_byte(&mut self, word: u8)
        ensures
            sent_now(old(self).transcript(), final(self).transcript(), seq![word]),
    {
        let _ = self.exchange(word);
        assert(self.wire@[old(self).transcript().len() as int + 0] == self.wire@.last());
    }

    /// Reads one byte by sending a filler byte.
    fn get_byte(&mut self) -> (r: u8)
        ensures
            final(self).transcript() == old(self).transcript().push(
                BusEvent::Transfer { sent: DUMMY_BYTE, received: r },
            ),
            sent_now(old(self).transcript(), final(self).transcript(), seq![DUMMY_BYTE]),
            received_of(final(self).transcript()[old(self).transcript().len() as int]) == r,
    {
        let r = self.exchange(DUMMY_BYTE);
        assert(self.wire@[old(self).transcript().len() as int + 0] == self.wire@.last());
        r
    }

    /// Sends the end byte.
    fn send_end_cmd(&mut self) -> (r: Result<(), Error>)
        ensures
            r is Ok,
            sent_now(old(self).transcript(), final(self).transcript(), seq![END_BYTE]),
    {
        self.send_byte(END_BYTE);
        Ok(())
    }

    /// Sends the start byte, the opcode with the reply bit cleared and the
    /// parameter count; with no parameters also the end byte.
    fn send_cmd(&mut self, cmd: &NinaCommand, num_params: u8) -> (r: Result<(), Error>)
        ensures
            r is Ok,
            sent_now(
                old(self).transcript(),
                final(self).transcript(),
                seq![START_BYTE, opcode(*cmd) & 0x7f, num_params] + if num_params == 0 {
                    seq![END_BYTE]
                } else {
                    Seq::empty()
                },
            ),
    {
        let ghost w0 = self.wire@;
        self.send_byte(START_BYTE);
        let ghost w1 = self.wire@;
        self.send_byte(cmd.opcode() & !REPLY_BIT);
        assert(!REPLY_BIT == 0x7f) by (bit_vector);
        let ghost w2 = self.wire@;
        proof {
            lemma_sent_concat(w0, w1, w2, seq![START_BYTE], seq![opcode(*cmd) & 0x7f]);
        }
        self.send_byte(num_params);
        let ghost w3 = self.wire@;
        proof {
            lemma_sent_concat(w0, w2, w3, seq![START_BYTE] + seq![opcode(*cmd) & 0x7f], seq![num_params]);
            assert(seq![START_BYTE] + seq![opcode(*cmd) & 0x7f] + seq![num_params] =~= seq![START_BYTE, opcode(*cmd) & 0x7f, num_params]);
        }
        if num_params == 0 {
            let _ = self.send_end_cmd();
            proof {
                lemma_sent_concat(w0, w3, self.wire@, seq![START_BYTE, opcode(*cmd) & 0x7f, num_params], seq![END_BYTE]);
            }
        } else {
            assert(seq![START_BYTE, opcode(*cmd) & 0x7f, num_params] + Seq::<u8>::empty() =~= seq![START_BYTE, opcode(*cmd) & 0x7f, num_params]);
        }
        Ok(())
    }

    /// Sends a parameter's length field, one or two bytes.
    fn send_param_length(&mut self, param: &NinaAbstractParam) -> (r: Result<(), Error>)
        requires
            param.wf(),
        ensures
            r is Ok,
            sent_now(old(self).transcript(), final(self).transcript(), param.length_field()),
    {
        let bytes = param.length_as_bytes();
        let size = param.length_size();
        let ghost w0 = self.wire@;
        self.send_byte(bytes[0]);
        if size == 2 {
            let ghost w1 = self.wire@;
            self.send_byte(bytes[1]);
            proof {
                lemma_sent_concat(w0, w1, self.wire@, seq![bytes[0]], seq![bytes[1]]);
                assert(bytes@.take(2) =~= seq![bytes[0]] + seq![bytes[1]]);
            }
        } else {
            assert(bytes@.take(1) =~= seq![bytes[0]]);
        }
        Ok(())
    }

    /// Sends a parameter: its length field, then its payload.
    fn send_param(&mut self, param: &NinaAbstractParam) -> (r: Result<(), Error>)
        requires
            param.wf(),
        ensures
            r is Ok,
            sent_now(old(self).transcript(), final(self).transcript(), param.encoded()),
    {
        let ghost w0 = self.wire@;
        let _ = self.send_param_length(param);
        let ghost w1 = self.wire@;
        let data = param.data();
        let mut i: usize = 0;
        while i < data.len()
            invariant
                i <= data@.len(),
                data@ == param.data_view(),
                sent_now(w1, self.wire@, data@.take(i as int)),
            decreases data@.len() - i,
        {
            let ghost wi = self.wire@;
            self.send_byte(data[i]);
            proof {
                lemma_sent_concat(w1, wi, self.wire@, data@.take(i as int), seq![data@[i as int]]);
                assert(data@.take(i as int) + seq![data@[i as int]] =~= data@.take(i + 1));
            }
            i = i + 1;
        }
        proof {
            assert(data@.take(i as int) =~= data@);
            lemma_sent_concat(w0, w1, self.wire@, param.length_field(), data@);
        }
        Ok(())
    }

    /// Reads and discards filler bytes until `command_size` bytes are a
    /// multiple of four.
    fn pad_to_multiple_of_4(&mut self, command_size: u16)
        requires
            command_size <= 60000,
        ensures
            sent_now(old(self).transcript(), final(self).transcript(), dummies(pad_count(command_size as nat))),
    {
        let ghost w0 = self.wire@;
        let mut size: u16 = command_size;
        while size % 4 != 0
            invariant
                command_size <= 60000,
                command_size <= size <= command_size + 3,
                pad_count(command_size as nat) == (size - command_size) + pad_count(size as nat),
                sent_now(w0, self.wire@, dummies((size - command_size) as nat)),
            decreases pad_count(size as nat),
        {
            let ghost wi = self.wire@;
            let _ = self.get_byte();
            proof {
                assert(sends_at(self.wire@, wi.len() as int, seq![DUMMY_BYTE])) by {
                    assert(self.wire@[wi.len() as int + 0] == self.wire@.last());
                }
                lemma_sent_concat(w0, wi, self.wire@, dummies((size - command_size) as nat), seq![DUMMY_BYTE]);
                assert(dummies((size - command_size) as nat) + seq![DUMMY_BYTE] =~= dummies((size + 1 - command_size) as nat));
            }
            size = size + 1;
        }
    }

    /// Sends an operation in one bus session: the command, each parameter
    /// in order, the end byte, and filler up to a multiple of four bytes.
    pub fn execute(&mut self, operation: &Operation) -> (r: Result<(), Error>)
        requires
            operation.wf(),
        ensures
            r is Ok,
            request_sent(old(self).transcript(), final(self).transcript(), operation_frame(*operation)),
    {
        let ghost w0 = self.wire@;
        let params = param_list_as_slice(&operation.params);
        let ghost enc = encoded_params(params@);
        let number_of_params: u8 = params.len() as u8;
        self.select();
        let ghost w1 = self.wire@;
        let _ = self.send_cmd(&operation.command, number_of_params);
        let ghost header = seq![START_BYTE, opcode(operation.command) & 0x7f, number_of_params];
        if number_of_params > 0 {
            let ghost w2 = self.wire@;
            let mut total_params_length: u16 = 0;
            let mut total_params_length_size: u16 = 0;
            let mut i: usize = 0;
            proof {
                assert(header + Seq::<u8>::empty() =~= header);
                assert(enc.take(0) =~= Seq::<Seq<u8>>::empty());
            }
            while i < params.len()
                invariant
                    params@ == operation.params_view(),
                    operation.wf(),
                    enc == encoded_params(params@),
                    i <= params@.len() <= 8,
                    total_params_length + total_params_length_size == concat_all(enc.take(i as int)).len(),
                    total_params_length + total_params_length_size <= i * 1026,
                    sent_now(w2, self.wire@, concat_all(enc.take(i as int))),
                decreases params@.len() - i,
            {
                let ghost wi = self.wire@;
                let p = &params[i];
                assert(p.wf());
                let _ = self.send_param(p);
                let len = p.length();
                let size = p.length_size();
                total_params_length = total_params_length + len;
                total_params_length_size = total_params_length_size + size as u16;
                proof {
                    lemma_sent_concat(w2, wi, self.wire@, concat_all(enc.take(i as int)), p.encoded());
                    assert(enc.take(i + 1).drop_last() =~= enc.take(i as int));
                    assert(enc.take(i + 1).last() == p.encoded());
                }
                i = i + 1;
            }
            let ghost w3 = self.wire@;
            let _ = self.send_end_cmd();
            let command_size: u16 = 4 + total_params_length_size + total_params_length;
            let ghost w4 = self.wire@;
            self.pad_to_multiple_of_4(command_size);
            proof {
                assert(enc.take(i as int) =~= enc);
                lemma_sent_concat(w1, w2, w3, header, concat_all(enc));
                lemma_sent_concat(w1, w3, w4, header + concat_all(enc), seq![END_BYTE]);
                lemma_sent_concat(w1, w4, self.wire@, header + concat_all(enc) + seq![END_BYTE], dummies(pad_count(command_size as nat)));
            }
        } else {
            proof {
                assert(enc =~= Seq::<Seq<u8>>::empty());
                assert(concat_all(enc) =~= Seq::<u8>::empty());
                assert(pad_count(4) == 0);
                assert(header + seq![END_BYTE] =~= unpadded_frame(opcode(operation.command), enc) + dummies(0));
            }
        }
        let ghost w5 = self.wire@;
        self.deselect();
        proof {
            assert(keeps(w0, w1));
            lemma_keeps_trans(w0, w1, w5);
            lemma_sends_keep(w5, self.wire@, w1.len() as int, operation_frame(*operation));
        }
        Ok(())
    }

    /// Reads one byte and tells whether it equals `check_byte`.
    fn read_and_check_byte(&mut self, check_byte: &u8) -> (r: bool)
        ensures
            sent_now(old(self).transcript(), final(self).transcript(), seq![DUMMY_BYTE]),
            r == (received_of(final(self).transcript()[old(self).transcript().len() as int]) == *check_byte),
    {
        let byte = self.get_byte();
        byte == *check_byte
    }

    /// Reads bytes until `wait_byte` arrives, for at most the retry budget;
    /// the firmware's error byte ends the wait early, after two more reads.
    fn wait_for_byte(&mut self, wait_byte: u8) -> (r: Result<bool, Error>)
        ensures
            ({
                let s = old(self).transcript().len() as int;
                let k = final(self).transcript().len() - s;
                let scan = scan_for(received_at(final(self).transcript(), s, k), 0, START_RETRY_LIMIT as nat, wait_byte);
                &&& sent_now(old(self).transcript(), final(self).transcript(), dummies(k as nat))
                &&& scan.1 == k
                &&& match r {
                    Ok(b) => b && scan.0 is Ok,
                    Err(e) => scan.0 matches Err(pe) && e == Error::Protocol(pe),
                }
            }),
    {
        let ghost w0 = self.wire@;
        let ghost s = w0.len() as int;
        let retry_limit: u16 = START_RETRY_LIMIT;
        let mut n: u16 = 0;
        proof {
            assert(dummies(0) =~= Seq::<u8>::empty());
        }
        while n < retry_limit
            invariant
                retry_limit == START_RETRY_LIMIT,
                w0 == old(self).transcript(),
                n <= retry_limit,
                s == w0.len(),
                sent_now(w0, self.wire@, dummies(n as nat)),
                forall|k: int| 0 <= k < n ==> received_of(#[trigger] self.wire@[s + k]) != ERROR_BYTE
                    && received_of(self.wire@[s + k]) != wait_byte,
            decreases retry_limit - n,
        {
            let ghost wi = self.wire@;
            let byte_read = self.get_byte();
            proof {
                lemma_sent_concat(w0, wi, self.wire@, dummies(n as nat), seq![DUMMY_BYTE]);
                assert(dummies(n as nat) + seq![DUMMY_BYTE] =~= dummies(n as nat + 1));
            }
            if byte_read == ERROR_BYTE {
                let ghost wj = self.wire@;
                let _ = self.get_byte();
                let ghost wk = self.wire@;
                let _ = self.get_byte();
                proof {
                    lemma_sent_concat(w0, wj, wk, dummies(n as nat + 1), seq![DUMMY_BYTE]);
                    lemma_sent_concat(w0, wk, self.wire@, dummies(n as nat + 1) + seq![DUMMY_BYTE], seq![DUMMY_BYTE]);
                    assert(dummies(n as nat + 1) + seq![DUMMY_BYTE] + seq![DUMMY_BYTE] =~= dummies(n as nat + 3));
                    let rx = received_at(self.wire@, s, n + 3);
                    assert forall|k: int| 0 <= k < n implies rx[k] != ERROR_BYTE && rx[k] != wait_byte by {
                        assert(self.wire@[s + k] == wi[s + k]);
                    }
                    lemma_scan_skip(rx, 0, n as int, START_RETRY_LIMIT as nat, wait_byte);
                    assert(self.wire@[s + n] == wj[s + n]);
                    assert(rx[n as int] == byte_read);
                    assert(scan_for(rx, n as int, (START_RETRY_LIMIT - n) as nat, wait_byte) == (
                    Err::<int, ProtocolError>(ProtocolError::NinaProtocolVersionMismatch), n + 3));
                    assert(self.wire@.len() - s == n + 3);
                }
                return Err(Error::Protocol(ProtocolError::NinaProtocolVersionMismatch));
            } else if byte_read == wait_byte {
                proof {
                    let rx = received_at(self.wire@, s, n + 1);
                    assert forall|k: int| 0 <= k < n implies rx[k] != ERROR_BYTE && rx[k] != wait_byte by {
                        assert(self.wire@[s + k] == wi[s + k]);
                    }
                    lemma_scan_skip(rx, 0, n as int, START_RETRY_LIMIT as nat, wait_byte);
                    assert(rx[n as int] == byte_read);
                    assert(scan_for(rx, n as int, (START_RETRY_LIMIT - n) as nat, wait_byte) == (
                    Ok::<int, ProtocolError>(n + 1), n + 1));
                    assert(self.wire@.len() - s == n + 1);
                }
                return Ok(true);
            }
            proof {
                assert forall|k: int| 0 <= k < n + 1 implies received_of(#[trigger] self.wire@[s + k]) != ERROR_BYTE
                    && received_of(self.wire@[s + k]) != wait_byte by {
                    if k < n {
                        assert(self.wire@[s + k] == wi[s + k]);
                    }
                }
            }
            n = n + 1;
        }
        proof {
            let rx = received_at(self.wire@, s, n as int);
            lemma_scan_skip(rx, 0, n as int, START_RETRY_LIMIT as nat, wait_byte);
        }
        Err(Error::Protocol(ProtocolError::CommunicationTimeout))
    }

    /// Waits for the start byte.
    fn check_start_cmd(&mut self) -> (r: Result<bool, Error>)
        ensures
            ({
                let s = old(self).transcript().len() as int;
                let k = final(self).transcript().len() - s;
                let scan = scan_for(received_at(final(self).transcript(), s, k), 0, START_RETRY_LIMIT as nat, START_BYTE);
                &&& sent_now(old(self).transcript(), final(self).transcript(), dummies(k as nat))
                &&& scan.1 == k
                &&& match r {
                    Ok(b) => b && scan.0 is Ok,
                    Err(e) => scan.0 matches Err(pe) && e == Error::Protocol(pe),
                }
            }),
    {
        self.wait_for_byte(START_BYTE)
    }

    /// Reads a reply's header: the start byte, the echoed opcode and the
    /// parameter count.
    fn check_response_ready(&mut self, cmd: &NinaCommand, num_params: u8) -> (r: Result<(), Error>)
        ensures
            ({
                let s = old(self).transcript().len() as int;
                let k = final(self).transcript().len() - s;
                let h = header_check(received_at(final(self).transcript(), s, k), reply_byte(*cmd), num_params);
                &&& sent_now(old(self).transcript(), final(self).transcript(), dummies(k as nat))
                &&& h.1 == k
                &&& match r {
                    Ok(_) => h.0 == Ok::<int, ProtocolError>(k),
                    Err(e) => h.0 matches Err(pe) && e == Error::Protocol(pe),
                }
            }),
    {
        let ghost w0 = self.wire@;
        let ghost s = w0.len() as int;
        let started = self.check_start_cmd();
        let ghost w1 = self.wire@;
        let ghost k1 = w1.len() - s;
        let ghost rx1 = received_at(w1, s, k1);
        proof {
            lemma_scan_count(rx1, 0, START_RETRY_LIMIT as nat, START_BYTE);
        }
        match started {
            Err(e) => {
                return Err(e);
            },
            Ok(_) => {},
        }
        let byte_to_check: u8 = cmd.opcode() | REPLY_BIT;
        let cmd_ok = self.read_and_check_byte(&byte_to_check);
        let ghost w2 = self.wire@;
        proof {
            lemma_sent_concat(w0, w1, w2, dummies(k1 as nat), seq![DUMMY_BYTE]);
            assert(dummies(k1 as nat) + seq![DUMMY_BYTE] =~= dummies(k1 as nat + 1));
            let rx = received_at(w2, s, k1 + 1);
            assert forall|k: int| 0 <= k < rx1.len() implies rx[k] == rx1[k] by {
                assert(w2[s + k] == w1[s + k]);
            }
            lemma_scan_prefix(rx1, rx, 0, START_RETRY_LIMIT as nat, START_BYTE);
            assert(rx[k1] == received_of(w2[w1.len() as int]));
        }
        if !cmd_ok {
            return Err(Error::Protocol(ProtocolError::InvalidCommand));
        }
        let count_ok = self.read_and_check_byte(&num_params);
        proof {
            lemma_sent_concat(w0, w2, self.wire@, dummies(k1 as nat + 1), seq![DUMMY_BYTE]);
            assert(dummies(k1 as nat + 1) + seq![DUMMY_BYTE] =~= dummies(k1 as nat + 2));
            let rx = received_at(self.wire@, s, k1 + 2);
            assert forall|k: int| 0 <= k < rx1.len() implies rx[k] == rx1[k] by {
                assert(self.wire@[s + k] == w1[s + k]);
            }
            lemma_scan_prefix(rx1, rx, 0, START_RETRY_LIMIT as nat, START_BYTE);
            assert(self.wire@[w1.len() as int] == w2[w1.len() as int]);
            assert(rx[k1] == received_of(w2[w1.len() as int]));
            assert(rx[k1 + 1] == received_of(self.wire@[w2.len() as int]));
        }
        if !count_ok {
            return Err(Error::Protocol(ProtocolError::InvalidNumberOfParameters));
        }
        Ok(())
    }

    /// Reads `len` payload bytes into a zeroed response buffer.
    fn read_response_bytes(&mut self, len: usize) -> (r: NinaResponseBuffer)
        requires
            len <= MAX_NINA_RESPONSE_LENGTH,
        ensures
            sent_now(old(self).transcript(), final(self).transcript(), dummies(len as nat)),
            r@ == response_buffer(received_at(final(self).transcript(), old(self).transcript().len() as int, len as int)),
    {
        let ghost w0 = self.wire@;
        let ghost s = w0.len() as int;
        let mut buf: NinaResponseBuffer = [0u8; MAX_NINA_RESPONSE_LENGTH];
        let mut i: usize = 0;
        proof {
            assert(dummies(0) =~= Seq::<u8>::empty());
            assert(buf@ =~= received_at(self.wire@, s, 0) + Seq::new(1024, |k: int| 0u8));
        }
        while i < len
            invariant
                len <= MAX_NINA_RESPONSE_LENGTH,
                i <= len,
                s == w0.len(),
                sent_now(w0, self.wire@, dummies(i as nat)),
                buf@ == received_at(self.wire@, s, i as int) + Seq::new((1024 - i) as nat, |k: int| 0u8),
            decreases len - i,
        {
            let ghost wi = self.wire@;
            let byte = self.get_byte();
            buf[i] = byte;
            proof {
                lemma_sent_concat(w0, wi, self.wire@, dummies(i as nat), seq![DUMMY_BYTE]);
                assert(dummies(i as nat) + seq![DUMMY_BYTE] =~= dummies(i as nat + 1));
                assert forall|k: int| 0 <= k < i implies #[trigger] self.wire@[s + k] == wi[s + k] by {}
                assert(buf@ =~= received_at(self.wire@, s, i + 1) + Seq::new((1024 - (i + 1)) as nat, |k: int| 0u8));
            }
            i = i + 1;
        }
        buf
    }

    /// Packs two bytes into a word: `byte0` is the low byte, `byte1` the
    /// high byte.
    fn combine_2_bytes(byte0: u8, byte1: u8) -> (r: u16)
        ensures
            r == byte1 as u16 * 256 + byte0 as u16,
    {
        let word0: u16 = byte0 as u16;
        let word1: u16 = byte1 as u16;
        assert((word1 << 8u16) | (word0 & 0xffu16) == word1 * 256 + word0) by (bit_vector)
            requires
                word0 < 256,
                word1 < 256,
        ;
        (word1 << 8) | (word0 & 0xff)
    }

    /// Reads a reply body whose length field is one byte.
    fn read_response(&mut self) -> (r: Result<NinaResponseBuffer, Error>)
        ensures
            ({
                let s = old(self).transcript().len() as int;
                let k = final(self).transcript().len() - s;
                let b = body_parse(received_at(final(self).transcript(), s, k), false);
                &&& sent_now(old(self).transcript(), final(self).transcript(), dummies(k as nat))
                &&& b.1 == k
                &&& returns_reply(r, b.0)
            }),
    {
        let ghost w0 = self.wire@;
        let ghost s = w0.len() as int;
        let len_byte = self.get_byte();
        let response_length_in_bytes = len_byte as usize;
        let ghost w1 = self.wire@;
        if response_length_in_bytes > MAX_NINA_PARAMS {
            proof {
                assert(dummies(1) =~= seq![DUMMY_BYTE]);
                assert(received_at(w1, s, 1)[0] == len_byte);
            }
            return Err(Error::Protocol(ProtocolError::TooManyParameters));
        }
        let buf = self.read_response_bytes(response_length_in_bytes);
        let ghost w2 = self.wire@;
        let _ = self.read_and_check_byte(&END_BYTE);
        proof {
            let n = response_length_in_bytes as int;
            lemma_sent_concat(w0, w1, w2, seq![DUMMY_BYTE], dummies(n as nat));
            lemma_sent_concat(w0, w2, self.wire@, seq![DUMMY_BYTE] + dummies(n as nat), seq![DUMMY_BYTE]);
            assert(seq![DUMMY_BYTE] + dummies(n as nat) + seq![DUMMY_BYTE] =~= dummies(n as nat + 2));
            let rx = received_at(self.wire@, s, n + 2);
            assert(self.wire@[s] == w1[s]);
            assert(rx[0] == len_byte);
            lemma_received_keep(w2, self.wire@, s + 1, n);
            assert(rx.subrange(1, 1 + n) =~= received_at(self.wire@, s + 1, n));
        }
        Ok(buf)
    }

    /// Reads a reply body whose length field is two bytes, big-endian.
    fn read_response16(&mut self) -> (r: Result<NinaResponseBuffer, Error>)
        ensures
            ({
                let s = old(self).transcript().len() as int;
                let k = final(self).transcript().len() - s;
                let b = body_parse(received_at(final(self).transcript(), s, k), true);
                &&& sent_now(old(self).transcript(), final(self).transcript(), dummies(k as nat))
                &&& b.1 == k
                &&& returns_reply(r, b.0)
            }),
    {
        let ghost w0 = self.wire@;
        let ghost s = w0.len() as int;
        let high = self.get_byte();
        let ghost w1 = self.wire@;
        let low = self.get_byte();
        let ghost w2 = self.wire@;
        let declared: usize = Self::combine_2_bytes(low, high) as usize;
        let response_length: usize = if declared > MAX_NINA_RESPONSE_LENGTH {
            MAX_NINA_RESPONSE_LENGTH
        } else {
            declared
        };
        proof {
            lemma_sent_concat(w0, w1, w2, seq![DUMMY_BYTE], seq![DUMMY_BYTE]);
            assert(seq![DUMMY_BYTE] + seq![DUMMY_BYTE] =~= dummies(2));
            assert(w2[s] == w1[s]);
        }
        let buf = self.read_response_bytes(response_length);
        let ghost w3 = self.wire@;
        let _ = self.read_and_check_byte(&END_BYTE);
        proof {
            let n = response_length as int;
            lemma_sent_concat(w0, w2, w3, dummies(2), dummies(n as nat));
            lemma_sent_concat(w0, w3, self.wire@, dummies(2) + dummies(n as nat), seq![DUMMY_BYTE]);
            assert(dummies(2) + dummies(n as nat) + seq![DUMMY_BYTE] =~= dummies(n as nat + 3));
            let rx = received_at(self.wire@, s, n + 3);
            assert(self.wire@[s] == w1[s]);
            assert(self.wire@[s + 1] == w2[s + 1]);
            assert(rx[0] == high && rx[1] == low);
            lemma_received_keep(w3, self.wire@, s + 2, n);
            assert(rx.subrange(2, 2 + n) =~= received_at(self.wire@, s + 2, n));
        }
        Ok(buf)
    }

    /// Reads one reply in one bus session: acquires the bus, checks the
    /// header, reads the body, and releases the bus on every path.
    fn receive_reply(&mut self, cmd: &NinaCommand, expected_num_params: u8, wide: bool) -> (r: Result<NinaResponseBuffer, Error>)
        ensures
            reply_read(old(self).transcript(), final(self).transcript(), reply_byte(*cmd), expected_num_params, wide),
            returns_reply(r, reply_outcome(old(self).transcript(), final(self).transcript(), reply_byte(*cmd), expected_num_params, wide)),
    {
        let ghost w0 = self.wire@;
        self.select();
        let ghost w1 = self.wire@;
        let ghost s = w1.len() as int;
        let ready = self.check_response_ready(cmd, expected_num_params);
        let ghost w2 = self.wire@;
        let ghost k1 = w2.len() - s;
        let ghost rx1 = received_at(w2, s, k1);
        let result = match ready {
            Err(e) => Err(e),
            Ok(_) => if wide {
                self.read_response16()
            } else {
                self.read_response()
            },
        };
        let ghost w3 = self.wire@;
        let ghost k = w3.len() - s;
        proof {
            let rx = received_at(w3, s, k);
            if ready is Ok {
                let k2 = w3.len() - w2.len();
                lemma_sent_concat(w1, w2, w3, dummies(k1 as nat), dummies(k2 as nat));
                lemma_dummies_concat(k1 as nat, k2 as nat);
                lemma_received_split(w3, s, k1, k2);
                lemma_received_keep(w2, w3, s, k1);
                assert(rx.skip(k1) =~= received_at(w3, s + k1, k2));
            } else {
                assert(w3 == w2);
            }
            assert forall|k: int| 0 <= k < rx1.len() implies rx[k] == rx1[k] by {
                assert(w3[s + k] == w2[s + k]);
            }
            lemma_header_prefix(rx1, rx, reply_byte(*cmd), expected_num_params);
        }
        self.deselect();
        proof {
            let w = self.wire@;
            assert(keeps(w0, w1));
            lemma_keeps_trans(w0, w1, w3);
            lemma_sends_keep(w3, w, s, dummies(k as nat));
            lemma_received_keep(w3, w, s, k);
            assert(session_received(w0, w) == received_at(w3, s, k));
        }
        result
    }

    /// Reads the reply to `operation`, whose length field is one byte.
    pub fn receive(&mut self, operation: &Operation, expected_num_params: u8) -> (r: Result<NinaResponseBuffer, Error>)
        ensures
            reply_read(old(self).transcript(), final(self).transcript(), reply_byte(operation.command), expected_num_params, false),
            returns_reply(r, reply_outcome(old(self).transcript(), final(self).transcript(), reply_byte(operation.command), expected_num_params, false)),
    {
        self.receive_reply(&operation.command, expected_num_params, false)
    }

    /// Reads the reply to `operation`, whose length field is two bytes.
    pub fn receive_data16(&mut self, operation: &Operation, expected_num_params: u8) -> (r: Result<NinaResponseBuffer, Error>)
        ensures
            reply_read(old(self).transcript(), final(self).transcript(), reply_byte(operation.command), expected_num_params, true),
            returns_reply(r, reply_outcome(old(self).transcript(), final(self).transcript(), reply_byte(operation.command), expected_num_params, true)),
    {
        self.receive_reply(&operation.command, expected_num_params, true)
    }

    /// Sends `operation` and reads its one-parameter reply.
    fn round_trip(&mut self, operation: &Operation, wide: bool) -> (r: Result<NinaResponseBuffer, Error>)
        requires
            operation.wf(),
        ensures
            performed(old(self).transcript(), final(self).transcript(), operation.command, encoded_params(operation.params_view()), wide),
            returns_reply(r, outcome(old(self).transcript(), final(self).transcript(), operation.command, encoded_params(operation.params_view()), wide)),
    {
        let ghost w0 = self.wire@;
        let _ = self.execute(operation);
        let ghost w1 = self.wire@;
        let result = if wide {
            self.receive_data16(operation, 1)
        } else {
            self.receive(operation, 1)
        };
        proof {
            lemma_performed(w0, w1, self.wire@, operation.command, encoded_params(operation.params_view()), wide);
        }
        result
    }

    /// Queries the firmware version (e.g. 1.7.4).
    pub fn get_fw_version(&mut self) -> (r: Result<FirmwareVersion, Error>)
        ensures
            performed(old(self).transcript(), final(self).transcript(), NinaCommand::GetFwVersion, seq![], false),
            r == match outcome(old(self).transcript(), final(self).transcript(), NinaCommand::GetFwVersion, seq![], false) {
                Ok(p) => Ok(version_of(response_buffer(p))),
                Err(e) => Err(Error::Protocol(e)),
            },
    {
        let operation = Operation::new(NinaCommand::GetFwVersion);
        proof {
            assert(encoded_params(operation.params_view()) =~= seq![]);
        }
        match self.round_trip(&operation, false) {
            Ok(result) => {
                let version: [u8; 8] = [
                    result[0],
                    result[1],
                    result[2],
                    result[3],
                    result[4],
                    result[5],
                    result[6],
                    result[7],
                ];
                Ok(FirmwareVersion::new(version))
            },
            Err(e) => Err(e),
        }
    }

    /// Joins the network `ssid` with `passphrase`. Either longer than 255
    /// bytes fails with `PayloadTooLarge` before anything is sent.
    pub fn set_passphrase(&mut self, ssid: &str, passphrase: &str) -> (r: Result<(), Error>)
        ensures
            ssid.spec_bytes().len() > 255 || passphrase.spec_bytes().len() > 255 ==> r == Err::<(), Error>(too_large())
                && final(self).transcript() == old(self).transcript(),
            ssid.spec_bytes().len() <= 255 && passphrase.spec_bytes().len() <= 255 ==> {
                let params = seq![field(1, ssid.spec_bytes()), field(1, passphrase.spec_bytes())];
                &&& performed(old(self).transcript(), final(self).transcript(), NinaCommand::SetPassphrase, params, false)
                &&& r == unit_result(outcome(old(self).transcript(), final(self).transcript(), NinaCommand::SetPassphrase, params, false))
            },
    {
        let ssid_param = match NinaSmallArrayParam::new(ssid) {
            Ok(p) => p,
            Err(e) => return Err(e),
        };
        let passphrase_param = match NinaSmallArrayParam::new(passphrase) {
            Ok(p) => p,
            Err(e) => return Err(e),
        };
        let a = NinaAbstractParam::from(ssid_param);
        let b = NinaAbstractParam::from(passphrase_param);
        let operation = Operation::new(NinaCommand::SetPassphrase).param(a).param(b);
        proof {
            assert(encoded_params(operation.params_view()) =~= seq![field(1, ssid.spec_bytes()), field(1, passphrase.spec_bytes())]);
        }
        match self.round_trip(&operation, false) {
            Ok(_) => Ok(()),
            Err(e) => Err(e),
        }
    }

    /// Queries the WiFi connection status.
    pub fn get_conn_status(&mut self) -> (r: Result<ConnectionStatus, Error>)
        ensures
            performed(old(self).transcript(), final(self).transcript(), NinaCommand::GetConnStatus, seq![], false),
            r == match outcome(old(self).transcript(), final(self).transcript(), NinaCommand::GetConnStatus, seq![], false) {
                Ok(p) => Ok(connection_status_of(first_byte(p))),
                Err(e) => Err(Error::Protocol(e)),
            },
    {
        let operation = Operation::new(NinaCommand::GetConnStatus);
        proof {
            assert(encoded_params(operation.params_view()) =~= seq![]);
        }
        match self.round_trip(&operation, false) {
            Ok(result) => Ok(ConnectionStatus::from_byte(result[0])),
            Err(e) => Err(e),
        }
    }

    /// Leaves the network. The command carries one filler byte.
    pub fn disconnect(&mut self) -> (r: Result<(), Error>)
        ensures
            performed(old(self).transcript(), final(self).transcript(), NinaCommand::Disconnect, seq![field(1, seq![DUMMY_BYTE])], false),
            r == unit_result(outcome(old(self).transcript(), final(self).transcript(), NinaCommand::Disconnect, seq![field(1, seq![DUMMY_BYTE])], false)),
    {
        let filler: [u8; 1] = [DUMMY_BYTE];
        let dummy_param = match NinaByteParam::from_bytes(filler.as_slice()) {
            Ok(p) => p,
            Err(_) => NinaByteParam::default(),
        };
        let operation = Operation::new(NinaCommand::Disconnect).param(NinaAbstractParam::from(dummy_param));
        proof {
            assert(filler@ =~= seq![DUMMY_BYTE]);
            assert(encoded_params(operation.params_view()) =~= seq![field(1, seq![DUMMY_BYTE])]);
        }
        match self.round_trip(&operation, false) {
            Ok(_) => Ok(()),
            Err(e) => Err(e),
        }
    }

    /// Sets the DNS servers used for hostname resolution; without a second
    /// server, zeros are sent in its place.
    pub fn set_dns_config(&mut self, ip1: IpAddress, ip2: Option<IpAddress>) -> (r: Result<(), Error>)
        ensures
            ({
                let params = seq![field(1, seq![1u8]), field(1, ip1@), field(1, dns2_bytes(ip2))];
                &&& performed(old(self).transcript(), final(self).transcript(), NinaCommand::SetDNSConfig, params, false)
                &&& r == unit_result(outcome(old(self).transcript(), final(self).transcript(), NinaCommand::SetDNSConfig, params, false))
            }),
    {
        let one: [u8; 1] = [1];
        let second: [u8; 4] = match ip2 {
            Some(a) => a,
            None => [0, 0, 0, 0],
        };
        let count_param = match NinaByteParam::from_bytes(one.as_slice()) {
            Ok(p) => p,
            Err(e) => return Err(e),
        };
        let dns1_param = match NinaSmallArrayParam::from_bytes(ip1.as_slice()) {
            Ok(p) => p,
            Err(e) => return Err(e),
        };
        let dns2_param = match NinaSmallArrayParam::from_bytes(second.as_slice()) {
            Ok(p) => p,
            Err(e) => return Err(e),
        };
        let operation = Operation::new(NinaCommand::SetDNSConfig)
            .param(NinaAbstractParam::from(count_param))
            .param(NinaAbstractParam::from(dns1_param))
            .param(NinaAbstractParam::from(dns2_param));
        proof {
            assert(one@ =~= seq![1u8]);
            assert(second@ =~= dns2_bytes(ip2));
            assert(encoded_params(operation.params_view()) =~= seq![field(1, seq![1u8]), field(1, ip1@), field(1, dns2_bytes(ip2))]);
        }
        match self.round_trip(&operation, false) {
            Ok(_) => Ok(()),
            Err(e) => Err(e),
        }
    }

    /// Asks for `hostname` to be resolved; an acknowledgement other than `1`
    /// fails with `DnsResolveFailed`.
    pub fn req_host_by_name(&mut self, hostname: &str) -> (r: Result<u8, Error>)
        ensures
            hostname.spec_bytes().len() > 255 ==> r == Err::<u8, Error>(too_large()) && final(self).transcript() == old(self).transcript(),
            hostname.spec_bytes().len() <= 255 ==> {
                let params = seq![field(1, hostname.spec_bytes())];
                let out = outcome(old(self).transcript(), final(self).transcript(), NinaCommand::ReqHostByName, params, false);
                &&& performed(old(self).transcript(), final(self).transcript(), NinaCommand::ReqHostByName, params, false)
                &&& r == match flag_result(out, NetworkError::DnsResolveFailed) {
                    Ok(_) => Ok(1u8),
                    Err(e) => Err(e),
                }
            },
    {
        let p = match NinaSmallArrayParam::new(hostname) {
            Ok(p) => p,
            Err(e) => return Err(e),
        };
        let operation = Operation::new(NinaCommand::ReqHostByName).param(NinaAbstractParam::from(p));
        proof {
            assert(encoded_params(operation.params_view()) =~= seq![field(1, hostname.spec_bytes())]);
        }
        match self.round_trip(&operation, false) {
            Ok(result) => if result[0] != 1 {
                Err(Error::Network(NetworkError::DnsResolveFailed))
            } else {
                Ok(result[0])
            },
            Err(e) => Err(e),
        }
    }

    /// Fetches the response holding the address a hostname resolved to.
    pub fn get_host_by_name(&mut self) -> (r: Result<NinaResponseBuffer, Error>)
        ensures
            performed(old(self).transcript(), final(self).transcript(), NinaCommand::GetHostByName, seq![], false),
            returns_reply(r, outcome(old(self).transcript(), final(self).transcript(), NinaCommand::GetHostByName, seq![], false)),
    {
        let operation = Operation::new(NinaCommand::GetHostByName);
        proof {
            assert(encoded_params(operation.params_view()) =~= seq![]);
        }
        self.round_trip(&operation, false)
    }

    /// The address in a lookup response; all-ones means the name was not
    /// found.
    pub fn address_from_response(result: &NinaResponseBuffer) -> (r: Result<IpAddress, Error>)
        requires
            result@.len() >= 4,
        ensures
            r == lookup_result(result@),
    {
        let ip_address: IpAddress = [result[0], result[1], result[2], result[3]];
        if ip_address[0] == 255 && ip_address[1] == 255 && ip_address[2] == 255 && ip_address[3] == 255 {
            Err(Error::Network(NetworkError::DnsResolveFailed))
        } else {
            Ok(ip_address)
        }
    }

    /// Resolves `hostname` to an address: a request round trip, then a
    /// fetch of the result.
    pub fn resolve(&mut self, hostname: &str) -> (r: Result<IpAddress, Error>)
        ensures
            hostname.spec_bytes().len() > 255 ==> r == Err::<IpAddress, Error>(too_large()) && final(self).transcript() == old(self).transcript(),
            hostname.spec_bytes().len() <= 255 ==> lookup_done(old(self).transcript(), final(self).transcript(), hostname.spec_bytes(), r),
    {
        let ghost w0 = self.wire@;
        match self.req_host_by_name(hostname) {
            Ok(_) => {},
            Err(e) => {
                proof {
                    if hostname.spec_bytes().len() <= 255 {
                        let wm = self.wire@;
                        assert(performed(w0, wm, NinaCommand::ReqHostByName, seq![field(1, hostname.spec_bytes())], false));
                    }
                }
                return Err(e);
            },
        }
        let ghost wm = self.wire@;
        let result = match self.get_host_by_name() {
            Ok(result) => result,
            Err(e) => {
                assert(performed(w0, wm, NinaCommand::ReqHostByName, seq![field(1, hostname.spec_bytes())], false));
                return Err(e);
            },
        };
        let r = Self::address_from_response(&result);
        assert(performed(w0, wm, NinaCommand::ReqHostByName, seq![field(1, hostname.spec_bytes())], false));
        r
    }

    /// Acquires a socket.
    pub fn get_socket(&mut self) -> (r: Result<Socket, Error>)
        ensures
            performed(old(self).transcript(), final(self).transcript(), NinaCommand::GetSocket, seq![], false),
            r == match outcome(old(self).transcript(), final(self).transcript(), NinaCommand::GetSocket, seq![], false) {
                Ok(p) => Ok(first_byte(p)),
                Err(e) => Err(Error::Protocol(e)),
            },
    {
        let operation = Operation::new(NinaCommand::GetSocket);
        proof {
            assert(encoded_params(operation.params_view()) =~= seq![]);
        }
        match self.round_trip(&operation, false) {
            Ok(result) => Ok(result[0]),
            Err(e) => Err(e),
        }
    }

    /// Starts a client connection on `socket` to `ip`:`port`; a reply
    /// other than `1` fails with `ConnectFailed`.
    pub fn start_client_tcp(&mut self, socket: Socket, ip: IpAddress, port: Port, mode: &TransportMode) -> (r: Result<(), Error>)
        ensures
            ({
                let params = seq![
                    field(1, ip@),
                    field(1, port_bytes(port)),
                    field(1, seq![socket]),
                    field(1, seq![mode_byte(*mode)]),
                ];
                &&& performed(old(self).transcript(), final(self).transcript(), NinaCommand::StartClientTcp, params, false)
                &&& r == flag_result(outcome(old(self).transcript(), final(self).transcript(), NinaCommand::StartClientTcp, params, false), NetworkError::ConnectFailed)
            }),
    {
        let port_as_bytes: [u8; 2] = [(port / 256) as u8, (port % 256) as u8];
        let socket_bytes: [u8; 1] = [socket];
        let mode_bytes: [u8; 1] = [mode.as_byte()];
        let ip_param = match NinaSmallArrayParam::from_bytes(ip.as_slice()) {
            Ok(p) => p,
            Err(e) => return Err(e),
        };
        let port_param = match NinaWordParam::from_bytes(port_as_bytes.as_slice()) {
            Ok(p) => p,
            Err(e) => return Err(e),
        };
        let socket_param = match NinaByteParam::from_bytes(socket_bytes.as_slice()) {
            Ok(p) => p,
            Err(e) => return Err(e),
        };
        let mode_param = match NinaByteParam::from_bytes(mode_bytes.as_slice()) {
            Ok(p) => p,
            Err(e) => return Err(e),
        };
        let operation = Operation::new(NinaCommand::StartClientTcp)
            .param(NinaAbstractParam::from(ip_param))
            .param(NinaAbstractParam::from(port_param))
            .param(NinaAbstractParam::from(socket_param))
            .param(NinaAbstractParam::from(mode_param));
        proof {
            assert(port_as_bytes@ =~= port_bytes(port));
            assert(socket_bytes@ =~= seq![socket]);
            assert(mode_bytes@ =~= seq![mode_byte(*mode)]);
            assert(encoded_params(operation.params_view()) =~= seq![
                field(1, ip@),
                field(1, port_bytes(port)),
                field(1, seq![socket]),
                field(1, seq![mode_byte(*mode)]),
            ]);
        }
        match self.round_trip(&operation, false) {
            Ok(result) => if result[0] == 1 {
                Ok(())
            } else {
                Err(Error::Network(NetworkError::ConnectFailed))
            },
            Err(e) => Err(e),
        }
    }

    /// Stops the client connection on `socket`; a reply other than `1`
    /// fails with `DisconnectFailed`.
    pub fn stop_client_tcp(&mut self, socket: Socket, _mode: &TransportMode) -> (r: Result<(), Error>)
        ensures
            performed(old(self).transcript(), final(self).transcript(), NinaCommand::StopClientTcp, seq![field(1, seq![socket])], false),
            r == flag_result(outcome(old(self).transcript(), final(self).transcript(), NinaCommand::StopClientTcp, seq![field(1, seq![socket])], false), NetworkError::DisconnectFailed),
    {
        let socket_bytes: [u8; 1] = [socket];
        let p = match NinaByteParam::from_bytes(socket_bytes.as_slice()) {
            Ok(p) => p,
            Err(e) => return Err(e),
        };
        let operation = Operation::new(NinaCommand::StopClientTcp).param(NinaAbstractParam::from(p));
        proof {
            assert(socket_bytes@ =~= seq![socket]);
            assert(encoded_params(operation.params_view()) =~= seq![field(1, seq![socket])]);
        }
        match self.round_trip(&operation, false) {
            Ok(result) => if result[0] == 1 {
                Ok(())
            } else {
                Err(Error::Network(NetworkError::DisconnectFailed))
            },
            Err(e) => Err(e),
        }
    }

    /// Queries the state of the client connection on `socket`.
    pub fn get_client_state_tcp(&mut self, socket: Socket) -> (r: Result<ConnectionState, Error>)
        ensures
            performed(old(self).transcript(), final(self).transcript(), NinaCommand::GetClientStateTcp, seq![field(1, seq![socket])], false),
            r == match outcome(old(self).transcript(), final(self).transcript(), NinaCommand::GetClientStateTcp, seq![field(1, seq![socket])], false) {
                Ok(p) => Ok(connection_state_of(first_byte(p))),
                Err(e) => Err(Error::Protocol(e)),
            },
    {
        let socket_bytes: [u8; 1] = [socket];
        let p = match NinaByteParam::from_bytes(socket_bytes.as_slice()) {
            Ok(p) => p,
            Err(e) => return Err(e),
        };
        let operation = Operation::new(NinaCommand::GetClientStateTcp).param(NinaAbstractParam::from(p));
        proof {
            assert(socket_bytes@ =~= seq![socket]);
            assert(encoded_params(operation.params_view()) =~= seq![field(1, seq![socket])]);
        }
        match self.round_trip(&operation, false) {
            Ok(result) => Ok(ConnectionState::from_byte(result[0])),
            Err(e) => Err(e),
        }
    }

    /// Sends `data` on `socket`; more than 1024 bytes fails with
    /// `PayloadTooLarge` before anything is sent.
    pub fn send_data(&mut self, data: &str, socket: Socket) -> (r: Result<[u8; 1], Error>)
        ensures
            data.spec_bytes().len() > 1024 ==> r == Err::<[u8; 1], Error>(too_large()) && final(self).transcript() == old(self).transcript(),
            data.spec_bytes().len() <= 1024 ==> {
                let params = seq![field(2, seq![socket]), field(2, data.spec_bytes())];
                &&& performed(old(self).transcript(), final(self).transcript(), NinaCommand::SendDataTcp, params, false)
                &&& match outcome(old(self).transcript(), final(self).transcript(), NinaCommand::SendDataTcp, params, false) {
                    Ok(p) => r matches Ok(a) && a@ == seq![first_byte(p)],
                    Err(e) => r == Err::<[u8; 1], Error>(Error::Protocol(e)),
                }
            },
    {
        let socket_bytes: [u8; 1] = [socket];
        let socket_param = match NinaLargeArrayParam::from_bytes(socket_bytes.as_slice()) {
            Ok(p) => p,
            Err(e) => return Err(e),
        };
        let data_param = match NinaLargeArrayParam::new(data) {
            Ok(p) => p,
            Err(e) => return Err(e),
        };
        let operation = Operation::new(NinaCommand::SendDataTcp)
            .param(NinaAbstractParam::from(socket_param))
            .param(NinaAbstractParam::from(data_param));
        proof {
            assert(socket_bytes@ =~= seq![socket]);
            assert(encoded_params(operation.params_view()) =~= seq![field(2, seq![socket]), field(2, data.spec_bytes())]);
        }
        match self.round_trip(&operation, false) {
            Ok(result) => {
                let a: [u8; 1] = [result[0]];
                assert(a@ =~= seq![result@[0]]);
                Ok(a)
            },
            Err(e) => Err(e),
        }
    }

    /// Queries how many bytes `socket` holds; the reply's length field is
    /// two bytes.
    pub fn avail_data_tcp(&mut self, socket: Socket) -> (r: Result<usize, Error>)
        ensures
            performed(old(self).transcript(), final(self).transcript(), NinaCommand::AvailDataTcp, seq![field(2, seq![socket])], true),
            r == match outcome(old(self).transcript(), final(self).transcript(), NinaCommand::AvailDataTcp, seq![field(2, seq![socket])], true) {
                Ok(p) => Ok(first_byte(p) as usize),
                Err(e) => Err(Error::Protocol(e)),
            },
    {
        let socket_bytes: [u8; 1] = [socket];
        let p = match NinaLargeArrayParam::from_bytes(socket_bytes.as_slice()) {
            Ok(p) => p,
            Err(e) => return Err(e),
        };
        let operation = Operation::new(NinaCommand::AvailDataTcp).param(NinaAbstractParam::from(p));
        proof {
            assert(socket_bytes@ =~= seq![socket]);
            assert(encoded_params(operation.params_view()) =~= seq![field(2, seq![socket])]);
        }
        match self.round_trip(&operation, true) {
            Ok(result) => Ok(result[0] as usize),
            Err(e) => Err(e),
        }
    }
}

} // verus!
