//! Parameter codec, command opcodes and protocol error definitions.
use vstd::prelude::*;
use vstd::string::*;

use crate::Error;

pub mod operation;

verus! {

/// The maximum number of parameters in one command, and the maximum length
/// of a one-byte-length response.
pub const MAX_NINA_PARAMS: usize = 8;

/// Capacity of a byte parameter.
pub const MAX_NINA_BYTE_PARAM_BUFFER_LENGTH: usize = 1;

/// Capacity of a word parameter.
pub const MAX_NINA_WORD_PARAM_BUFFER_LENGTH: usize = 2;

/// Capacity of a small array parameter.
pub const MAX_NINA_SMALL_ARRAY_PARAM_BUFFER_LENGTH: usize = 255;

/// Capacity of a large array parameter.
pub const MAX_NINA_LARGE_ARRAY_PARAM_BUFFER_LENGTH: usize = 1024;

/// Size of the buffer that a response is read into.
pub const MAX_NINA_RESPONSE_LENGTH: usize = 1024;

#[verifier::external_type_specification]
#[verifier::external_body]
#[verifier::reject_recursive_types(T)]
pub struct ExHeaplessVec<T, const N: usize>(heapless::Vec<T, N>);

/// Storage of a parameter's payload.
pub type ParamBuffer = heapless::Vec<u8, MAX_NINA_LARGE_ARRAY_PARAM_BUFFER_LENGTH>;

/// The bytes held in a payload buffer.
pub uninterp spec fn buffer_bytes(v: heapless::Vec<u8, 1024>) -> Seq<u8>;

/// Relies on `heapless::Vec::new`: the new vector is empty.
#[verifier::external_body]
pub(crate) fn buffer_new() -> (r: ParamBuffer)
    ensures
        buffer_bytes(r) == Seq::<u8>::empty(),
{
    heapless::Vec::new()
}

/// Relies on `heapless::Vec::from_slice`: it fails exactly when the slice is
/// longer than the capacity, and otherwise holds a copy of the slice.
#[verifier::external_body]
pub(crate) fn buffer_from_slice(bytes: &[u8]) -> (r: Result<ParamBuffer, ()>)
    ensures
        bytes@.len() <= 1024 <==> r is Ok,
        r matches Ok(v) ==> buffer_bytes(v) == bytes@,
{
    heapless::Vec::from_slice(bytes)
}

/// Relies on `heapless::Vec::as_slice`: the slice holds the vector's items.
#[verifier::external_body]
pub(crate) fn buffer_as_slice(v: &ParamBuffer) -> (r: &[u8])
    ensures
        r@ == buffer_bytes(*v),
{
    v.as_slice()
}

/// The commands of the protocol that this driver sends.
#[derive(Debug, Clone, Copy, PartialEq, Eq, Structural)]
pub enum NinaCommand {
    /// Join a network with a passphrase.
    SetPassphrase,
    /// Configure the DNS servers.
    SetDNSConfig,
    /// Query the WiFi connection status.
    GetConnStatus,
    /// Query how many bytes a socket holds.
    AvailDataTcp,
    /// Start a client connection.
    StartClientTcp,
    /// Stop a client connection.
    StopClientTcp,
    /// Query the state of a client connection.
    GetClientStateTcp,
    /// Leave the network.
    Disconnect,
    /// Ask for a hostname to be resolved.
    ReqHostByName,
    /// Fetch the address a hostname resolved to.
    GetHostByName,
    /// Query the firmware version.
    GetFwVersion,
    /// Acquire a socket.
    GetSocket,
    /// Send data on a connected socket.
    SendDataTcp,
}

/// The opcode byte of a command.
pub open spec fn opcode(cmd: NinaCommand) -> u8 {
    match cmd {
        NinaCommand::SetPassphrase => 0x11,
        NinaCommand::SetDNSConfig => 0x15,
        NinaCommand::GetConnStatus => 0x20,
        NinaCommand::AvailDataTcp => 0x2b,
        NinaCommand::StartClientTcp => 0x2d,
        NinaCommand::StopClientTcp => 0x2e,
        NinaCommand::GetClientStateTcp => 0x2f,
        NinaCommand::Disconnect => 0x30,
        NinaCommand::ReqHostByName => 0x34,
        NinaCommand::GetHostByName => 0x35,
        NinaCommand::GetFwVersion => 0x37,
        NinaCommand::GetSocket => 0x3f,
        NinaCommand::SendDataTcp => 0x44,
    }
}

impl NinaCommand {
    /// The opcode byte of this command.
    pub fn opcode(&self) -> (r: u8)
        ensures
            r == opcode(*self),
            r < 0x80,
    {
        match self {
            NinaCommand::SetPassphrase => 0x11,
            NinaCommand::SetDNSConfig => 0x15,
            NinaCommand::GetConnStatus => 0x20,
            NinaCommand::AvailDataTcp => 0x2b,
            NinaCommand::StartClientTcp => 0x2d,
            NinaCommand::StopClientTcp => 0x2e,
            NinaCommand::GetClientStateTcp => 0x2f,
            NinaCommand::Disconnect => 0x30,
            NinaCommand::ReqHostByName => 0x34,
            NinaCommand::GetHostByName => 0x35,
            NinaCommand::GetFwVersion => 0x37,
            NinaCommand::GetSocket => 0x3f,
            NinaCommand::SendDataTcp => 0x44,
        }
    }
}

/// Errors in communicating with the firmware.
#[derive(Debug, Clone, Copy, PartialEq, Eq, Structural)]
pub enum ProtocolError {
    /// The firmware signalled an error in place of a start byte.
    NinaProtocolVersionMismatch,
    /// No start byte arrived within the retry budget.
    CommunicationTimeout,
    /// The reply did not echo the expected command.
    InvalidCommand,
    /// The reply did not carry the expected number of parameters.
    InvalidNumberOfParameters,
    /// The reply declared a length over the engine's limit.
    TooManyParameters,
    /// A payload is larger than the capacity of its parameter kind.
    PayloadTooLarge,
}

/// The error returned for a payload over a parameter kind's capacity.
pub open spec fn too_large() -> Error {
    Error::Protocol(ProtocolError::PayloadTooLarge)
}

/// Copies `bytes` into a payload buffer when they fit in `capacity`.
fn checked_buffer(bytes: &[u8], capacity: usize) -> (r: Result<ParamBuffer, Error>)
    requires
        capacity <= 1024,
    ensures
        bytes@.len() <= capacity ==> (r matches Ok(v) && buffer_bytes(v) == bytes@),
        bytes@.len() > capacity ==> r == Err::<ParamBuffer, Error>(too_large()),
{
    if bytes.len() > capacity {
        return Err(Error::Protocol(ProtocolError::PayloadTooLarge));
    }
    match buffer_from_slice(bytes) {
        Ok(v) => Ok(v),
        Err(_) => Err(Error::Protocol(ProtocolError::PayloadTooLarge)),
    }
}

/// A parameter in the form the engine sends: a length field of one or two
/// bytes, then the payload.
#[derive(Debug)]
pub struct NinaAbstractParam {
    length_as_bytes: [u8; 2],
    data: ParamBuffer,
    length: u16,
    length_size: u8,
}

impl NinaAbstractParam {
    /// The payload.
    pub closed spec fn data_view(&self) -> Seq<u8> {
        buffer_bytes(self.data)
    }

    /// How many bytes encode the length field (1 or 2).
    pub closed spec fn size_view(&self) -> nat {
        self.length_size as nat
    }

    /// The length field and the payload are consistent.
    pub closed spec fn wf(&self) -> bool {
        &&& buffer_bytes(self.data).len() == self.length as nat
        &&& self.length_size == 1 ==> self.length <= 255 && self.length_as_bytes@ == seq![
            self.length as u8,
            0u8,
        ]
        &&& self.length_size == 2 ==> self.length <= 1024 && self.length_as_bytes@ == seq![
            (self.length / 256) as u8,
            (self.length % 256) as u8,
        ]
        &&& self.length_size == 1 || self.length_size == 2
    }

    /// The length field as it goes on the wire.
    pub open spec fn length_field(&self) -> Seq<u8> {
        length_field(self.data_view().len(), self.size_view())
    }

    /// The parameter as it goes on the wire.
    pub open spec fn encoded(&self) -> Seq<u8> {
        self.length_field() + self.data_view()
    }

    /// The length field takes as many bytes as the size says.
    pub proof fn lemma_length_field_size(&self)
        requires
            self.wf(),
        ensures
            self.length_field().len() == self.size_view(),
            self.encoded().len() == self.size_view() + self.data_view().len(),
    {
    }

    /// The length field, big-endian, padded to two bytes.
    pub fn length_as_bytes(&self) -> (r: [u8; 2])
        requires
            self.wf(),
        ensures
            r@.take(self.size_view() as int) == self.length_field(),
    {
        proof {
            if self.length_size == 2 {
                assert(self.length_as_bytes@.take(2) =~= self.length_field());
            } else {
                assert(self.length_as_bytes@.take(1) =~= self.length_field());
            }
        }
        self.length_as_bytes
    }

    /// The payload.
    pub fn data(&self) -> (r: &[u8])
        ensures
            r@ == self.data_view(),
    {
        buffer_as_slice(&self.data)
    }

    /// The payload length.
    pub fn length(&self) -> (r: u16)
        requires
            self.wf(),
        ensures
            r as nat == self.data_view().len(),
    {
        self.length
    }

    /// How many bytes encode the length field.
    pub fn length_size(&self) -> (r: u8)
        requires
            self.wf(),
        ensures
            r as nat == self.size_view(),
            r == 1 || r == 2,
            r == 1 ==> self.data_view().len() <= 255,
            self.data_view().len() <= 1024,
    {
        self.length_size
    }
}

/// A length field of `size` bytes, big-endian.
pub open spec fn length_field(len: nat, size: nat) -> Seq<u8> {
    if size == 1 {
        seq![len as u8]
    } else {
        seq![(len / 256) as u8, (len % 256) as u8]
    }
}


/// A single byte parameter (a socket id or a flag), with a one-byte length field.
#[derive(Debug)]
pub struct NinaByteParam {
    length: u8,
    data: ParamBuffer,
}

impl NinaByteParam {
    /// The payload.
    pub closed spec fn data_view(&self) -> Seq<u8> {
        buffer_bytes(self.data)
    }

    /// The length field matches the payload, which fits the capacity.
    pub closed spec fn wf(&self) -> bool {
        &&& buffer_bytes(self.data).len() == self.length as nat
        &&& self.length as nat <= 1
    }

    /// Builds a parameter from the bytes of `data`; fails with
    /// `PayloadTooLarge` when they exceed the capacity.
    pub fn new(data: &str) -> (r: Result<Self, Error>)
        ensures
            data.spec_bytes().len() <= 1 ==> (r matches Ok(p) && p.wf() && p.data_view()
                == data.spec_bytes()),
            data.spec_bytes().len() > 1 ==> (r matches Err(e) && e == too_large()),
    {
        Self::from_bytes(data.as_bytes())
    }

    /// Builds a parameter holding a copy of `bytes`; fails with
    /// `PayloadTooLarge` when they exceed the capacity.
    pub fn from_bytes(bytes: &[u8]) -> (r: Result<Self, Error>)
        ensures
            bytes@.len() <= 1 ==> (r matches Ok(p) && p.wf() && p.data_view() == bytes@),
            bytes@.len() > 1 ==> (r matches Err(e) && e == too_large()),
    {
        match checked_buffer(bytes, MAX_NINA_BYTE_PARAM_BUFFER_LENGTH) {
            Ok(data) => Ok(Self { length: bytes.len() as u8, data }),
            Err(e) => Err(e),
        }
    }

    /// The payload.
    pub fn data(&self) -> (r: &[u8])
        ensures
            r@ == self.data_view(),
    {
        buffer_as_slice(&self.data)
    }

    /// The payload length.
    pub fn length(&self) -> (r: u16)
        requires
            self.wf(),
        ensures
            r as nat == self.data_view().len(),
    {
        self.length as u16
    }

    /// The length field as it goes on the wire.
    pub fn length_as_bytes(&self) -> (r: [u8; 1])
        requires
            self.wf(),
        ensures
            r@ == length_field(self.data_view().len(), 1),
    {
        proof {
            assert(seq![self.length] =~= length_field(self.data_view().len(), 1));
        }
        [self.length]
    }
}

impl Default for NinaByteParam {
    /// An empty parameter.
    fn default() -> (r: Self)
        ensures
            r.wf(),
            r.data_view() == Seq::<u8>::empty(),
    {
        Self { length: 0, data: buffer_new() }
    }
}

impl From<NinaByteParam> for NinaAbstractParam {
    fn from(p: NinaByteParam) -> (r: NinaAbstractParam)
        ensures
            p.wf() ==> r.wf(),
            r.data_view() == p.data_view(),
            r.size_view() == 1,
    {
        let length = p.length;
        NinaAbstractParam {
            length_as_bytes: [length, 0],
            data: p.data,
            length: length as u16,
            length_size: 1,
        }
    }
}

impl vstd::std_specs::convert::FromSpecImpl<NinaByteParam> for NinaAbstractParam {
    open spec fn obeys_from_spec() -> bool {
        false
    }

    open spec fn from_spec(p: NinaByteParam) -> NinaAbstractParam {
        vstd::pervasive::arbitrary()
    }
}

/// A two byte parameter (a port), with a one-byte length field.
#[derive(Debug)]
pub struct NinaWordParam {
    length: u8,
    data: ParamBuffer,
}

impl NinaWordParam {
    /// The payload.
    pub closed spec fn data_view(&self) -> Seq<u8> {
        buffer_bytes(self.data)
    }

    /// The length field matches the payload, which fits the capacity.
    pub closed spec fn wf(&self) -> bool {
        &&& buffer_bytes(self.data).len() == self.length as nat
        &&& self.length as nat <= 2
    }

    /// Builds a parameter from the bytes of `data`; fails with
    /// `PayloadTooLarge` when they exceed the capacity.
    pub fn new(data: &str) -> (r: Result<Self, Error>)
        ensures
            data.spec_bytes().len() <= 2 ==> (r matches Ok(p) && p.wf() && p.data_view()
                == data.spec_bytes()),
            data.spec_bytes().len() > 2 ==> (r matches Err(e) && e == too_large()),
    {
        Self::from_bytes(data.as_bytes())
    }

    /// Builds a parameter holding a copy of `bytes`; fails with
    /// `PayloadTooLarge` when they exceed the capacity.
    pub fn from_bytes(bytes: &[u8]) -> (r: Result<Self, Error>)
        ensures
            bytes@.len() <= 2 ==> (r matches Ok(p) && p.wf() && p.data_view() == bytes@),
            bytes@.len() > 2 ==> (r matches Err(e) && e == too_large()),
    {
        match checked_buffer(bytes, MAX_NINA_WORD_PARAM_BUFFER_LENGTH) {
            Ok(data) => Ok(Self { length: bytes.len() as u8, data }),
            Err(e) => Err(e),
        }
    }

    /// The payload.
    pub fn data(&self) -> (r: &[u8])
        ensures
            r@ == self.data_view(),
    {
        buffer_as_slice(&self.data)
    }

    /// The payload length.
    pub fn length(&self) -> (r: u16)
        requires
            self.wf(),
        ensures
            r as nat == self.data_view().len(),
    {
        self.length as u16
    }

    /// The length field as it goes on the wire.
    pub fn length_as_bytes(&self) -> (r: [u8; 1])
        requires
            self.wf(),
        ensures
            r@ == length_field(self.data_view().len(), 1),
    {
        proof {
            assert(seq![self.length] =~= length_field(self.data_view().len(), 1));
        }
        [self.length]
    }
}

impl Default for NinaWordParam {
    /// An empty parameter.
    fn default() -> (r: Self)
        ensures
            r.wf(),
            r.data_view() == Seq::<u8>::empty(),
    {
        Self { length: 0, data: buffer_new() }
    }
}

impl From<NinaWordParam> for NinaAbstractParam {
    fn from(p: NinaWordParam) -> (r: NinaAbstractParam)
        ensures
            p.wf() ==> r.wf(),
            r.data_view() == p.data_view(),
            r.size_view() == 1,
    {
        let length = p.length;
        NinaAbstractParam {
            length_as_bytes: [length, 0],
            data: p.data,
            length: length as u16,
            length_size: 1,
        }
    }
}

impl vstd::std_specs::convert::FromSpecImpl<NinaWordParam> for NinaAbstractParam {
    open spec fn obeys_from_spec() -> bool {
        false
    }

    open spec fn from_spec(p: NinaWordParam) -> NinaAbstractParam {
        vstd::pervasive::arbitrary()
    }
}

/// A up to 255 byte parameter (an SSID or an address), with a one-byte length field.
#[derive(Debug)]
pub struct NinaSmallArrayParam {
    length: u8,
    data: ParamBuffer,
}

impl NinaSmallArrayParam {
    /// The payload.
    pub closed spec fn data_view(&self) -> Seq<u8> {
        buffer_bytes(self.data)
    }

    /// The length field matches the payload, which fits the capacity.
    pub closed spec fn wf(&self) -> bool {
        &&& buffer_bytes(self.data).len() == self.length as nat
        &&& self.length as nat <= 255
    }

    /// Builds a parameter from the bytes of `data`; fails with
    /// `PayloadTooLarge` when they exceed the capacity.
    pub fn new(data: &str) -> (r: Result<Self, Error>)
        ensures
            data.spec_bytes().len() <= 255 ==> (r matches Ok(p) && p.wf() && p.data_view()
                == data.spec_bytes()),
            data.spec_bytes().len() > 255 ==> (r matches Err(e) && e == too_large()),
    {
        Self::from_bytes(data.as_bytes())
    }

    /// Builds a parameter holding a copy of `bytes`; fails with
    /// `PayloadTooLarge` when they exceed the capacity.
    pub fn from_bytes(bytes: &[u8]) -> (r: Result<Self, Error>)
        ensures
            bytes@.len() <= 255 ==> (r matches Ok(p) && p.wf() && p.data_view() == bytes@),
            bytes@.len() > 255 ==> (r matches Err(e) && e == too_large()),
    {
        match checked_buffer(bytes, MAX_NINA_SMALL_ARRAY_PARAM_BUFFER_LENGTH) {
            Ok(data) => Ok(Self { length: bytes.len() as u8, data }),
            Err(e) => Err(e),
        }
    }

    /// The payload.
    pub fn data(&self) -> (r: &[u8])
        ensures
            r@ == self.data_view(),
    {
        buffer_as_slice(&self.data)
    }

    /// The payload length.
    pub fn length(&self) -> (r: u16)
        requires
            self.wf(),
        ensures
            r as nat == self.data_view().len(),
    {
        self.length as u16
    }

    /// The length field as it goes on the wire.
    pub fn length_as_bytes(&self) -> (r: [u8; 1])
        requires
            self.wf(),
        ensures
            r@ == length_field(self.data_view().len(), 1),
    {
        proof {
            assert(seq![self.length] =~= length_field(self.data_view().len(), 1));
        }
        [self.length]
    }
}

impl Default for NinaSmallArrayParam {
    /// An empty parameter.
    fn default() -> (r: Self)
        ensures
            r.wf(),
            r.data_view() == Seq::<u8>::empty(),
    {
        Self { length: 0, data: buffer_new() }
    }
}

impl From<NinaSmallArrayParam> for NinaAbstractParam {
    fn from(p: NinaSmallArrayParam) -> (r: NinaAbstractParam)
        ensures
            p.wf() ==> r.wf(),
            r.data_view() == p.data_view(),
            r.size_view() == 1,
    {
        let length = p.length;
        NinaAbstractParam {
            length_as_bytes: [length, 0],
            data: p.data,
            length: length as u16,
            length_size: 1,
        }
    }
}

impl vstd::std_specs::convert::FromSpecImpl<NinaSmallArrayParam> for NinaAbstractParam {
    open spec fn obeys_from_spec() -> bool {
        false
    }

    open spec fn from_spec(p: NinaSmallArrayParam) -> NinaAbstractParam {
        vstd::pervasive::arbitrary()
    }
}

/// A up to 1024 byte parameter (outbound data), with a one two-byte length field.
#[derive(Debug)]
pub struct NinaLargeArrayParam {
    length: u16,
    data: ParamBuffer,
}

impl NinaLargeArrayParam {
    /// The payload.
    pub closed spec fn data_view(&self) -> Seq<u8> {
        buffer_bytes(self.data)
    }

    /// The length field matches the payload, which fits the capacity.
    pub closed spec fn wf(&self) -> bool {
        &&& buffer_bytes(self.data).len() == self.length as nat
        &&& self.length as nat <= 1024
    }

    /// Builds a parameter from the bytes of `data`; fails with
    /// `PayloadTooLarge` when they exceed the capacity.
    pub fn new(data: &str) -> (r: Result<Self, Error>)
        ensures
            data.spec_bytes().len() <= 1024 ==> (r matches Ok(p) && p.wf() && p.data_view()
                == data.spec_bytes()),
            data.spec_bytes().len() > 1024 ==> (r matches Err(e) && e == too_large()),
    {
        Self::from_bytes(data.as_bytes())
    }

    /// Builds a parameter holding a copy of `bytes`; fails with
    /// `PayloadTooLarge` when they exceed the capacity.
    pub fn from_bytes(bytes: &[u8]) -> (r: Result<Self, Error>)
        ensures
            bytes@.len() <= 1024 ==> (r matches Ok(p) && p.wf() && p.data_view() == bytes@),
            bytes@.len() > 1024 ==> (r matches Err(e) && e == too_large()),
    {
        match checked_buffer(bytes, MAX_NINA_LARGE_ARRAY_PARAM_BUFFER_LENGTH) {
            Ok(data) => Ok(Self { length: bytes.len() as u16, data }),
            Err(e) => Err(e),
        }
    }

    /// The payload.
    pub fn data(&self) -> (r: &[u8])
        ensures
            r@ == self.data_view(),
    {
        buffer_as_slice(&self.data)
    }

    /// The payload length.
    pub fn length(&self) -> (r: u16)
        requires
            self.wf(),
        ensures
            r as nat == self.data_view().len(),
    {
        self.length as u16
    }

    /// The length field as it goes on the wire.
    pub fn length_as_bytes(&self) -> (r: [u8; 2])
        requires
            self.wf(),
        ensures
            r@ == length_field(self.data_view().len(), 2),
    {
        proof {
            assert(seq![(self.length / 256) as u8, (self.length % 256) as u8] =~= length_field(self.data_view().len(), 2));
        }
        [(self.length / 256) as u8, (self.length % 256) as u8]
    }
}

impl Default for NinaLargeArrayParam {
    /// An empty parameter.
    fn default() -> (r: Self)
        ensures
            r.wf(),
            r.data_view() == Seq::<u8>::empty(),
    {
        Self { length: 0, data: buffer_new() }
    }
}

impl From<NinaLargeArrayParam> for NinaAbstractParam {
    fn from(p: NinaLargeArrayParam) -> (r: NinaAbstractParam)
        ensures
            p.wf() ==> r.wf(),
            r.data_view() == p.data_view(),
            r.size_view() == 2,
    {
        let length = p.length;
        NinaAbstractParam {
            length_as_bytes: [(length / 256) as u8, (length % 256) as u8],
            data: p.data,
            length: length,
            length_size: 2,
        }
    }
}

impl vstd::std_specs::convert::FromSpecImpl<NinaLargeArrayParam> for NinaAbstractParam {
    open spec fn obeys_from_spec() -> bool {
        false
    }

    open spec fn from_spec(p: NinaLargeArrayParam) -> NinaAbstractParam {
        vstd::pervasive::arbitrary()
    }
}

} // verus!
