//! The message layer of a Bitcoin peer handshake: building the `version`,
//! `getblocks` and framed messages, reading message headers and payloads,
//! and deciding how to answer each message.
use vstd::prelude::*;
use vstd::string::StringSliceAdditionalSpecFns;
use vstd::utf8::encode_utf8;
use crate::buffer::{
    be_bytes, pow256, buffer_put_slice, buffer_put_u16, buffer_put_u32, buffer_put_u32_le, buffer_put_u64,
    buffer_put_u8, buffer_to_vec, buffer_with_capacity, le_bytes, le_value, read_u16_le,
    read_u32_le, read_u64_le, u64_le_bytes, zeros,
};
use crate::address::be_value;
use crate::crypto::{checksum_of, double_sha256};
use crate::text::{from_utf8_lossy, lossy_utf8, str_eq, strip_trailing, trim_end_matching};

verus! {

/// The network magic that starts every mainnet message.
pub const MAGIC_BYTES: [u8; 4] = [0xf9, 0xbe, 0xb4, 0xd9];

/// The user agent announced in the `version` message.
pub const USER_AGENT: &'static str = "my-app-name";

/// The protocol version announced in `version` and `getblocks`.
pub const PROTOCOL_VERSION: u32 = 70015;

/// The nonce sent in the `version` message.
pub const VERSION_NONCE: u64 = 6484984615390864390;

/// The port announced for both node addresses.
pub const NODE_PORT: u16 = 8333;

/// The network magic, as bytes.
pub open spec fn magic() -> Seq<u8> {
    seq![0xf9u8, 0xbeu8, 0xb4u8, 0xd9u8]
}

/// `version` padded with NUL bytes to the twelve bytes of a command field.
pub open spec fn version_command_field() -> Seq<u8> {
    seq![0x76u8, 0x65u8, 0x72u8, 0x73u8, 0x69u8, 0x6fu8, 0x6eu8] + zeros(5)
}

/// The bytes of the user agent.
pub open spec fn user_agent_bytes() -> Seq<u8> {
    USER_AGENT.spec_bytes()
}

/// The payload of the `version` message sent at time `timestamp`. The
/// numeric fields are written most significant byte first.
pub open spec fn version_payload(timestamp: u64) -> Seq<u8> {
    be_bytes(PROTOCOL_VERSION as nat, 4) + be_bytes(1, 8) + be_bytes(timestamp as nat, 8)
        + be_bytes(1, 8) + zeros(16) + be_bytes(NODE_PORT as nat, 2) + be_bytes(1, 8) + zeros(16)
        + be_bytes(NODE_PORT as nat, 2) + be_bytes(VERSION_NONCE as nat, 8) + seq![
        user_agent_bytes().len() as u8,
    ] + user_agent_bytes() + be_bytes(0, 4) + seq![1u8]
}

/// The whole `version` message sent at time `timestamp`: magic, padded
/// command, payload length, checksum and payload.
pub open spec fn version_message(timestamp: u64) -> Seq<u8> {
    let p = version_payload(timestamp);
    magic() + version_command_field() + le_bytes(p.len(), 4) + checksum_of(p) + p
}

/// The payload of the `getblocks` message: protocol version, one locator
/// hash of zeros and a zero stop hash.
pub open spec fn getblocks_payload() -> Seq<u8> {
    le_bytes(PROTOCOL_VERSION as nat, 4) + seq![1u8] + zeros(32) + zeros(32)
}

/// The command field of a message header: the command's bytes padded with
/// NUL bytes to twelve bytes.
pub open spec fn command_field(command: Seq<u8>) -> Seq<u8> {
    command + zeros((12 - command.len()) as nat)
}

/// A message framed for the wire: magic, the command field, the payload
/// length (truncated to 32 bits), the checksum and the payload.
pub open spec fn framed(command: Seq<u8>, payload: Seq<u8>) -> Seq<u8> {
    magic() + command_field(command) + le_bytes((payload.len() as u32) as nat, 4) + checksum_of(
        payload,
    ) + payload
}

/// The `width` bytes of `n`, most significant first, are `width` bytes.
pub proof fn lemma_be_bytes_len(n: nat, width: nat)
    ensures
        be_bytes(n, width).len() == width,
    decreases width,
{
    if width > 0 {
        lemma_be_bytes_len(n / 256, (width - 1) as nat);
    }
}

/// The `width` bytes of `n`, least significant first, are `width` bytes.
pub proof fn lemma_le_bytes_len(n: nat, width: nat)
    ensures
        le_bytes(n, width).len() == width,
    decreases width,
{
    if width > 0 {
        lemma_le_bytes_len(n / 256, (width - 1) as nat);
    }
}

/// The user agent is eleven ASCII bytes.
proof fn lemma_user_agent_bytes()
    ensures
        user_agent_bytes().len() == 11,
{
    reveal_strlit("my-app-name");
    assert(vstd::utf8::is_ascii_chars(USER_AGENT@));
    vstd::string::is_ascii_spec_bytes(USER_AGENT);
}

/// The `version` payload is 97 bytes long.
proof fn lemma_version_payload_len(timestamp: u64)
    ensures
        version_payload(timestamp).len() == 97,
{
    lemma_user_agent_bytes();
    lemma_be_bytes_len(PROTOCOL_VERSION as nat, 4);
    lemma_be_bytes_len(1, 8);
    lemma_be_bytes_len(timestamp as nat, 8);
    lemma_be_bytes_len(NODE_PORT as nat, 2);
    lemma_be_bytes_len(VERSION_NONCE as nat, 8);
    lemma_be_bytes_len(0, 4);
}

/// Builds the `version` message sent at time `timestamp` (seconds since the
/// Unix epoch), ready to be written to the peer.
pub fn create_version_payload(timestamp: u64) -> (message: Vec<u8>)
    ensures
        message@ == version_message(timestamp),
        message@.len() == 121,
{
    proof {
        lemma_user_agent_bytes();
        lemma_be_bytes_len(PROTOCOL_VERSION as nat, 4);
        lemma_be_bytes_len(1, 8);
        lemma_be_bytes_len(timestamp as nat, 8);
        lemma_be_bytes_len(NODE_PORT as nat, 2);
        lemma_be_bytes_len(VERSION_NONCE as nat, 8);
        lemma_be_bytes_len(0, 4);
    }
    let zero_ip = [0u8; 16];
    assert(zero_ip@ == zeros(16));
    let user_agent = USER_AGENT.as_bytes();
    let mut payload = buffer_with_capacity(86);
    buffer_put_u32(&mut payload, PROTOCOL_VERSION);
    buffer_put_u64(&mut payload, 1);
    buffer_put_u64(&mut payload, timestamp);
    buffer_put_u64(&mut payload, 1);
    buffer_put_slice(&mut payload, &zero_ip);
    buffer_put_u16(&mut payload, NODE_PORT);
    buffer_put_u64(&mut payload, 1);
    buffer_put_slice(&mut payload, &zero_ip);
    buffer_put_u16(&mut payload, NODE_PORT);
    buffer_put_u64(&mut payload, VERSION_NONCE);
    buffer_put_u8(&mut payload, user_agent.len() as u8);
    buffer_put_slice(&mut payload, user_agent);
    buffer_put_u32(&mut payload, 0);
    buffer_put_u8(&mut payload, 1);
    let payload_bytes = buffer_to_vec(&payload);
    assert(payload_bytes@ == version_payload(timestamp));

    let hash = double_sha256(payload_bytes.as_slice());
    let command: [u8; 12] = [0x76, 0x65, 0x72, 0x73, 0x69, 0x6f, 0x6e, 0, 0, 0, 0, 0];
    assert(command@ == version_command_field());
    let magic_bytes = MAGIC_BYTES;
    assert(magic_bytes@ == magic());
    proof {
        lemma_le_bytes_len(payload_bytes@.len(), 4);
        lemma_version_payload_len(timestamp);
    }
    let mut message = buffer_with_capacity(24 + payload_bytes.len());
    buffer_put_slice(&mut message, &magic_bytes);
    buffer_put_slice(&mut message, &command);
    buffer_put_u32_le(&mut message, payload_bytes.len() as u32);
    buffer_put_slice(&mut message, &hash[0..4]);
    buffer_put_slice(&mut message, payload_bytes.as_slice());
    buffer_to_vec(&message)
}

/// Builds the payload of the `getblocks` message.
pub fn create_getblocks_payload() -> (payload: Vec<u8>)
    ensures
        payload@ == getblocks_payload(),
{
    proof {
        lemma_le_bytes_len(PROTOCOL_VERSION as nat, 4);
    }
    let zero_hash = [0u8; 32];
    assert(zero_hash@ == zeros(32));
    let mut payload = buffer_with_capacity(37);
    buffer_put_u32_le(&mut payload, PROTOCOL_VERSION);
    buffer_put_u8(&mut payload, 1);
    buffer_put_slice(&mut payload, &zero_hash);
    buffer_put_slice(&mut payload, &zero_hash);
    buffer_to_vec(&payload)
}

/// Frames `payload` as a message with the given command, as it is written
/// to the peer: a 24-byte header, the command padded with NUL bytes to
/// twelve bytes, then the payload. A command must fit its twelve bytes.
pub fn frame_message(command: &str, payload: &[u8]) -> (message: Vec<u8>)
    requires
        command.spec_bytes().len() <= 12,
        24 + payload@.len() <= isize::MAX,
    ensures
        message@ == framed(command.spec_bytes(), payload@),
        message@.len() == 24 + payload@.len(),
{
    let hash = double_sha256(payload);
    let magic_bytes = MAGIC_BYTES;
    assert(magic_bytes@ == magic());
    proof {
        lemma_le_bytes_len((payload@.len() as u32) as nat, 4);
    }
    let command_bytes = command.as_bytes();
    let padding = [0u8; 12];
    let padding_length = 12 - command_bytes.len();
    assert(padding@.subrange(0, padding_length as int) == zeros(padding_length as nat));
    let mut message = buffer_with_capacity(24 + payload.len());
    buffer_put_slice(&mut message, &magic_bytes);
    buffer_put_slice(&mut message, command_bytes);
    buffer_put_slice(&mut message, &padding[0..padding_length]);
    buffer_put_u32_le(&mut message, #[verifier::truncate] (payload.len() as u32));
    buffer_put_slice(&mut message, &hash[0..4]);
    buffer_put_slice(&mut message, payload);
    buffer_to_vec(&message)
}

// ---------------------------------------------------------------------------
// Reading messages
// ---------------------------------------------------------------------------

/// The fields of a `version` payload, read least significant byte first.
pub struct VersionPayload {
    pub protocol_version: u32,
    pub services: u64,
    pub timestamp: u64,
    pub addr_recv_services: u64,
    pub addr_recv_ip: Vec<u8>,
    pub addr_recv_port: u16,
    pub addr_local_services: u64,
    pub addr_local_ip: Vec<u8>,
    pub addr_local_port: u16,
    pub nonce: u64,
    pub user_agent: Vec<u8>,
    pub start_height: u32,
    pub relay: u8,
}

/// Why a `version` payload was refused.
#[derive(Debug, PartialEq, Eq, Structural)]
pub enum VersionPayloadError {
    /// The payload is shorter than the 86 bytes that the fixed fields take.
    InvalidLength,
}

/// The little-endian number in `p[from..to]`.
pub open spec fn le_field(p: Seq<u8>, from: int, to: int) -> nat {
    le_value(p.subrange(from, to))
}

/// Whether `p` holds every field of a `version` payload: the 86 bytes of
/// the fixed fields and a user agent as long as its length byte says.
pub open spec fn version_payload_complete(p: Seq<u8>) -> bool {
    p.len() >= 86 && p.len() >= 86 + p[80]
}

/// Whether the fields of `v` are those that `p` holds.
pub open spec fn version_fields_of(v: VersionPayload, p: Seq<u8>) -> bool {
    let n = p[80] as int;
    &&& v.protocol_version == le_field(p, 0, 4)
    &&& v.services == le_field(p, 4, 12)
    &&& v.timestamp == le_field(p, 12, 20)
    &&& v.addr_recv_services == le_field(p, 20, 28)
    &&& v.addr_recv_ip@ == p.subrange(28, 44)
    &&& v.addr_recv_port == le_field(p, 44, 46)
    &&& v.addr_local_services == le_field(p, 46, 54)
    &&& v.addr_local_ip@ == p.subrange(54, 70)
    &&& v.addr_local_port == le_field(p, 70, 72)
    &&& v.nonce == le_field(p, 72, 80)
    &&& v.user_agent@ == p.subrange(81, 81 + n)
    &&& v.start_height == le_field(p, 81 + n, 85 + n)
    &&& v.relay == p[85 + n]
}

/// Reads the fields of a `version` payload. A payload shorter than 86 bytes
/// is refused; one whose user agent runs past its end is outside the
/// contract.
pub fn parse_version_payload(payload: &[u8]) -> (r: Result<VersionPayload, VersionPayloadError>)
    requires
        payload@.len() >= 86 ==> version_payload_complete(payload@),
    ensures
        payload@.len() < 86 <==> r == Err::<VersionPayload, VersionPayloadError>(
            VersionPayloadError::InvalidLength,
        ),
        r matches Ok(v) ==> version_fields_of(v, payload@),
{
    if payload.len() < 86 {
        return Err(VersionPayloadError::InvalidLength);
    }
    let n = payload[80] as usize;
    let v = VersionPayload {
        protocol_version: read_u32_le(payload, 0),
        services: read_u64_le(payload, 4),
        timestamp: read_u64_le(payload, 12),
        addr_recv_services: read_u64_le(payload, 20),
        addr_recv_ip: vstd::slice::slice_to_vec(&payload[28..44]),
        addr_recv_port: read_u16_le(payload, 44),
        addr_local_services: read_u64_le(payload, 46),
        addr_local_ip: vstd::slice::slice_to_vec(&payload[54..70]),
        addr_local_port: read_u16_le(payload, 70),
        nonce: read_u64_le(payload, 72),
        user_agent: vstd::slice::slice_to_vec(&payload[81..81 + n]),
        start_height: read_u32_le(payload, 81 + n),
        relay: payload[85 + n],
    };
    Ok(v)
}

/// The bytes of a `version` payload with the fields of `v`, each number
/// written least significant byte first, in the order that the protocol
/// lays them out.
pub open spec fn version_payload_bytes(v: VersionPayload) -> Seq<u8> {
    le_bytes(v.protocol_version as nat, 4) + le_bytes(v.services as nat, 8) + le_bytes(
        v.timestamp as nat,
        8,
    ) + le_bytes(v.addr_recv_services as nat, 8) + v.addr_recv_ip@ + le_bytes(
        v.addr_recv_port as nat,
        2,
    ) + le_bytes(v.addr_local_services as nat, 8) + v.addr_local_ip@ + le_bytes(
        v.addr_local_port as nat,
        2,
    ) + le_bytes(v.nonce as nat, 8) + seq![v.user_agent@.len() as u8] + v.user_agent@ + le_bytes(
        v.start_height as nat,
        4,
    ) + seq![v.relay]
}

/// Reading the bytes of a `version` payload gives back every field that
/// was written, each from its own place: the receiving and the sending
/// node's services, address and port included.
pub proof fn lemma_version_fields_read_back(v: VersionPayload, w: VersionPayload)
    requires
        v.addr_recv_ip@.len() == 16,
        v.addr_local_ip@.len() == 16,
        v.user_agent@.len() <= 255,
    ensures
        version_payload_bytes(v).len() == 86 + v.user_agent@.len(),
        version_payload_complete(version_payload_bytes(v)),
        version_fields_of(w, version_payload_bytes(v)) ==> {
            &&& w.protocol_version == v.protocol_version
            &&& w.services == v.services
            &&& w.timestamp == v.timestamp
            &&& w.addr_recv_services == v.addr_recv_services
            &&& w.addr_recv_ip@ == v.addr_recv_ip@
            &&& w.addr_recv_port == v.addr_recv_port
            &&& w.addr_local_services == v.addr_local_services
            &&& w.addr_local_ip@ == v.addr_local_ip@
            &&& w.addr_local_port == v.addr_local_port
            &&& w.nonce == v.nonce
            &&& w.user_agent@ == v.user_agent@
            &&& w.start_height == v.start_height
            &&& w.relay == v.relay
        },
{
    reveal_with_fuel(pow256, 9);
    assert(pow256(2) == 0x1_0000);
    assert(pow256(4) == 0x1_0000_0000);
    assert(pow256(8) == 0x1_0000_0000_0000_0000);
    crate::buffer::lemma_le_roundtrip(v.protocol_version as nat, 4);
    crate::buffer::lemma_le_roundtrip(v.services as nat, 8);
    crate::buffer::lemma_le_roundtrip(v.timestamp as nat, 8);
    crate::buffer::lemma_le_roundtrip(v.addr_recv_services as nat, 8);
    crate::buffer::lemma_le_roundtrip(v.addr_recv_port as nat, 2);
    crate::buffer::lemma_le_roundtrip(v.addr_local_services as nat, 8);
    crate::buffer::lemma_le_roundtrip(v.addr_local_port as nat, 2);
    crate::buffer::lemma_le_roundtrip(v.nonce as nat, 8);
    crate::buffer::lemma_le_roundtrip(v.start_height as nat, 4);
    let n = v.user_agent@.len() as int;
    let a = le_bytes(v.protocol_version as nat, 4) + le_bytes(v.services as nat, 8) + le_bytes(
        v.timestamp as nat,
        8,
    ) + le_bytes(v.addr_recv_services as nat, 8);
    let b = a + v.addr_recv_ip@ + le_bytes(v.addr_recv_port as nat, 2) + le_bytes(
        v.addr_local_services as nat,
        8,
    );
    let c = b + v.addr_local_ip@ + le_bytes(v.addr_local_port as nat, 2) + le_bytes(
        v.nonce as nat,
        8,
    );
    let d = c + seq![v.user_agent@.len() as u8] + v.user_agent@;
    let p = d + le_bytes(v.start_height as nat, 4) + seq![v.relay];
    assert(p == version_payload_bytes(v));
    assert(a.len() == 28 && b.len() == 54 && c.len() == 80 && d.len() == 81 + n);
    assert(p.subrange(0, 28) =~= a);
    assert(p.subrange(0, 54) =~= b);
    assert(p.subrange(0, 80) =~= c);
    assert(p.subrange(0, 81 + n) =~= d);
    assert(p[80] == v.user_agent@.len() as u8);
    assert(p.subrange(0, 4) =~= a.subrange(0, 4));
    assert(a.subrange(0, 4) =~= le_bytes(v.protocol_version as nat, 4));
    assert(p.subrange(4, 12) =~= a.subrange(4, 12));
    assert(a.subrange(4, 12) =~= le_bytes(v.services as nat, 8));
    assert(p.subrange(12, 20) =~= a.subrange(12, 20));
    assert(a.subrange(12, 20) =~= le_bytes(v.timestamp as nat, 8));
    assert(p.subrange(20, 28) =~= le_bytes(v.addr_recv_services as nat, 8));
    assert(p.subrange(28, 44) =~= b.subrange(28, 44));
    assert(b.subrange(28, 44) =~= v.addr_recv_ip@);
    assert(p.subrange(44, 46) =~= b.subrange(44, 46));
    assert(b.subrange(44, 46) =~= le_bytes(v.addr_recv_port as nat, 2));
    assert(p.subrange(46, 54) =~= le_bytes(v.addr_local_services as nat, 8));
    assert(p.subrange(54, 70) =~= c.subrange(54, 70));
    assert(c.subrange(54, 70) =~= v.addr_local_ip@);
    assert(p.subrange(70, 72) =~= c.subrange(70, 72));
    assert(c.subrange(70, 72) =~= le_bytes(v.addr_local_port as nat, 2));
    assert(p.subrange(72, 80) =~= le_bytes(v.nonce as nat, 8));
    assert(p.subrange(81, 81 + n) =~= v.user_agent@);
    assert(p.subrange(81 + n, 85 + n) =~= le_bytes(v.start_height as nat, 4));
    assert(p[85 + n] == v.relay);
}

/// A message from the peer.
pub enum BitcoinMessage {
    /// A `version` message, with its payload.
    Version(Vec<u8>),
    /// A `verack` message.
    VerAck,
    /// A `ping` message, with its nonce.
    Ping(u64),
    /// A `pong` message, with its nonce.
    Pong(u64),
    /// Any other message, with its command and payload.
    Other(String, Vec<u8>),
    /// Nothing could be read: the peer closed the stream.
    Empty,
}

/// The mathematical content of a `BitcoinMessage`.
pub enum MessageModel {
    Version(Seq<u8>),
    VerAck,
    Ping(u64),
    Pong(u64),
    Other(Seq<char>, Seq<u8>),
    Empty,
}

impl View for BitcoinMessage {
    type V = MessageModel;

    open spec fn view(&self) -> MessageModel {
        match self {
            BitcoinMessage::Version(p) => MessageModel::Version(p@),
            BitcoinMessage::VerAck => MessageModel::VerAck,
            BitcoinMessage::Ping(n) => MessageModel::Ping(*n),
            BitcoinMessage::Pong(n) => MessageModel::Pong(*n),
            BitcoinMessage::Other(c, p) => MessageModel::Other(c@, p@),
            BitcoinMessage::Empty => MessageModel::Empty,
        }
    }
}

/// The message that a command and its payload make.
pub open spec fn message_of(command: Seq<char>, payload: Seq<u8>) -> MessageModel {
    if command == "version"@ {
        MessageModel::Version(payload)
    } else if command == "verack"@ {
        MessageModel::VerAck
    } else if command == "ping"@ {
        MessageModel::Ping(le_value(payload) as u64)
    } else if command == "pong"@ {
        MessageModel::Pong(le_value(payload) as u64)
    } else {
        MessageModel::Other(command, payload)
    }
}

/// Whether a command and payload can be read as a message: a `version`
/// payload must hold all its fields, and a `ping` or `pong` payload must be
/// a nonce of eight bytes.
pub open spec fn message_readable(command: Seq<char>, payload: Seq<u8>) -> bool {
    &&& command == "version"@ ==> version_payload_complete(payload)
    &&& (command == "ping"@ || command == "pong"@) ==> payload.len() == 8
}

/// Whether a command and payload can be read as a message (see
/// `message_readable`).
pub fn message_is_readable(command: &str, payload: &[u8]) -> (r: bool)
    ensures
        r == message_readable(command@, payload@),
{
    proof {
        reveal_strlit("version");
        reveal_strlit("ping");
        reveal_strlit("pong");
        assert("version"@.len() == 7 && "ping"@.len() == 4 && "pong"@.len() == 4);
    }
    if str_eq(command, "version") {
        payload.len() >= 86 && payload.len() >= 86 + payload[80] as usize
    } else if str_eq(command, "ping") || str_eq(command, "pong") {
        payload.len() == 8
    } else {
        true
    }
}

/// Reads the message with the given command and payload. A `version`
/// payload must hold every field (see `parse_version_payload`, which reads
/// them), and a `ping` or `pong` payload must be the eight bytes of a nonce.
pub fn parse_message(command: &str, payload: &[u8]) -> (m: BitcoinMessage)
    requires
        message_readable(command@, payload@),
    ensures
        m@ == message_of(command@, payload@),
{
    if str_eq(command, "version") {
        BitcoinMessage::Version(vstd::slice::slice_to_vec(payload))
    } else if str_eq(command, "verack") {
        BitcoinMessage::VerAck
    } else if str_eq(command, "ping") {
        assert(payload@.subrange(0, 8) == payload@);
        BitcoinMessage::Ping(read_u64_le(payload, 0))
    } else if str_eq(command, "pong") {
        assert(payload@.subrange(0, 8) == payload@);
        BitcoinMessage::Pong(read_u64_le(payload, 0))
    } else {
        BitcoinMessage::Other(command.to_owned(), vstd::slice::slice_to_vec(payload))
    }
}

/// Why a message header was refused.
#[derive(Debug, PartialEq, Eq, Structural)]
pub enum HeaderError {
    /// The header does not start with the network magic.
    InvalidMagic,
}

/// The command named in a header: its command field decoded as UTF-8 (with
/// ill-formed bytes replaced), trailing NUL characters removed.
pub open spec fn header_command(header: Seq<u8>) -> Seq<char> {
    strip_trailing(lossy_utf8(header.subrange(4, 16)), '\0')
}

/// Reads a 24-byte message header: checks the magic, and returns the
/// command and the payload length.
pub fn parse_header(header: &[u8; 24]) -> (r: Result<(String, u32), HeaderError>)
    ensures
        header@.subrange(0, 4) != magic() <==> r == Err::<(String, u32), HeaderError>(
            HeaderError::InvalidMagic,
        ),
        r matches Ok((command, length)) ==> command@ == header_command(header@) && length
            == le_field(header@, 16, 20),
        vstd::utf8::valid_utf8(header@.subrange(4, 16)) ==> (r matches Ok((command, _))
            ==> command@ == strip_trailing(vstd::utf8::decode_utf8(header@.subrange(4, 16)), '\0')),
{
    let h: &[u8] = header;
    assert(h@ == header@);
    if !(h[0] == 0xf9 && h[1] == 0xbe && h[2] == 0xb4 && h[3] == 0xd9) {
        assert(h@.subrange(0, 4)[0] == h@[0]);
        assert(h@.subrange(0, 4)[1] == h@[1]);
        assert(h@.subrange(0, 4)[2] == h@[2]);
        assert(h@.subrange(0, 4)[3] == h@[3]);
        return Err(HeaderError::InvalidMagic);
    }
    assert(h@.subrange(0, 4) == magic());
    let decoded = from_utf8_lossy(&h[4..16]);
    let command = trim_end_matching(decoded.as_str(), '\0');
    let length = read_u32_le(h, 16);
    Ok((command, length))
}

// ---------------------------------------------------------------------------
// Answering messages
// ---------------------------------------------------------------------------

/// A message to send back: its command and payload.
pub struct Reply {
    pub command: String,
    pub payload: Vec<u8>,
}

/// What to do after a message: the reply to send, if any, and whether the
/// handshake is complete.
pub struct Outcome {
    pub reply: Option<Reply>,
    pub handshake_complete: bool,
}

/// The reply that a message calls for, as a command and payload: a
/// `version` is acknowledged with an empty `verack`, and a `ping` answered
/// with a `pong` carrying its nonce.
pub open spec fn reply_to(m: MessageModel) -> Option<(Seq<char>, Seq<u8>)> {
    match m {
        MessageModel::Version(_) => Some(("verack"@, Seq::<u8>::empty())),
        MessageModel::Ping(n) => Some(("pong"@, le_bytes(n as nat, 8))),
        _ => None,
    }
}

/// Whether a message completes the handshake: only `verack` does.
pub open spec fn completes_handshake(m: MessageModel) -> bool {
    m is VerAck
}

/// The reply carried by an `Outcome`, as a command and payload.
pub open spec fn reply_model(r: Option<Reply>) -> Option<(Seq<char>, Seq<u8>)> {
    match r {
        Some(reply) => Some((reply.command@, reply.payload@)),
        None => None,
    }
}

/// Decides how to answer a message from the peer.
pub fn handle_message(message: &BitcoinMessage) -> (o: Outcome)
    ensures
        reply_model(o.reply) == reply_to(message@),
        o.handshake_complete == completes_handshake(message@),
{
    match message {
        BitcoinMessage::Version(_) => Outcome {
            reply: Some(Reply { command: "verack".to_owned(), payload: Vec::new() }),
            handshake_complete: false,
        },
        BitcoinMessage::VerAck => Outcome { reply: None, handshake_complete: true },
        BitcoinMessage::Ping(nonce) => Outcome {
            reply: Some(Reply { command: "pong".to_owned(), payload: u64_le_bytes(*nonce) }),
            handshake_complete: false,
        },
        BitcoinMessage::Pong(_) => Outcome { reply: None, handshake_complete: false },
        BitcoinMessage::Other(_, _) => Outcome { reply: None, handshake_complete: false },
        BitcoinMessage::Empty => Outcome { reply: None, handshake_complete: false },
    }
}

/// The `pong` that answers a `ping` carries the ping's nonce: read back as
/// a message, it is a `pong` with the same nonce.
pub proof fn lemma_pong_carries_nonce(nonce: u64)
    ensures
        reply_to(MessageModel::Ping(nonce)) matches Some((command, payload)) && message_readable(
            command,
            payload,
        ) && message_of(command, payload) == MessageModel::Pong(nonce),
{
    reveal_with_fuel(crate::buffer::pow256, 9);
    assert(crate::buffer::pow256(8) == 0x1_0000_0000_0000_0000);
    crate::buffer::lemma_le_roundtrip(nonce as nat, 8);
    reveal_strlit("pong");
    reveal_strlit("ping");
    reveal_strlit("version");
    reveal_strlit("verack");
    assert("pong"@.len() == 4 && "version"@.len() == 7 && "verack"@.len() == 6);
    assert("pong"@[1] != "ping"@[1]);
}

/// The reply to a `version` message, read back as a message, is a `verack`.
pub proof fn lemma_version_acknowledged(payload: Seq<u8>)
    ensures
        reply_to(MessageModel::Version(payload)) matches Some((command, reply_payload))
            && message_readable(command, reply_payload) && message_of(command, reply_payload)
            == MessageModel::VerAck,
{
    reveal_strlit("verack");
    reveal_strlit("version");
    reveal_strlit("ping");
    reveal_strlit("pong");
    assert("verack"@.len() == 6 && "version"@.len() == 7);
    assert("ping"@.len() == 4 && "pong"@.len() == 4);
}

/// Appending a byte to a big-endian number shifts it up by one byte.
proof fn lemma_be_value_push(x: Seq<u8>, b: u8)
    ensures
        be_value(x.push(b)) == 256 * be_value(x) + b,
    decreases x.len(),
{
    let y = x.push(b);
    if x.len() == 0 {
        assert(y.drop_first() =~= Seq::<u8>::empty());
        assert(pow256(0) == 1);
        assert(be_value(y) == y[0] as nat * pow256(0) + be_value(y.drop_first()));
        assert(be_value(y.drop_first()) == 0);
        assert(y[0] == b);
        assert(y[0] as nat * 1 == b as nat);
    } else {
        let t = x.drop_first();
        lemma_be_value_push(t, b);
        assert(y.drop_first() =~= t.push(b));
        let p = pow256((x.len() - 1) as nat);
        assert(pow256(x.len()) == 256 * p);
        assert(be_value(y) == x[0] as nat * pow256(x.len()) + be_value(t.push(b)));
        assert(be_value(x) == x[0] as nat * p + be_value(t));
        assert(x[0] as nat * (256 * p) == 256 * (x[0] as nat * p)) by (nonlinear_arith);
    }
}

/// Reading back the big-endian bytes of a number gives the number, when it
/// fits in the width.
proof fn lemma_be_roundtrip(n: nat, width: nat)
    requires
        n < pow256(width),
    ensures
        be_bytes(n, width).len() == width,
        be_value(be_bytes(n, width)) == n,
    decreases width,
{
    if width == 0 {
        assert(pow256(0) == 1);
    } else {
        let p = pow256((width - 1) as nat);
        assert(n / 256 < p) by (nonlinear_arith)
            requires
                n < 256 * p,
        ;
        lemma_be_roundtrip(n / 256, (width - 1) as nat);
        lemma_be_value_push(be_bytes(n / 256, (width - 1) as nat), (n % 256) as u8);
    }
}

/// The `version` message carries the time it is built for: the timestamp
/// field of its payload (bytes 12 to 20, 36 to 44 of the message) reads,
/// most significant byte first, as the timestamp, so two different times
/// give two different messages.
pub proof fn lemma_version_message_carries_timestamp(timestamp: u64, other: u64)
    ensures
        version_payload(timestamp).len() == 97,
        be_value(version_payload(timestamp).subrange(12, 20)) == timestamp,
        ({
            let m = version_message(timestamp);
            &&& m.len() >= 97
            &&& m.subrange(m.len() - 97, m.len() as int) == version_payload(timestamp)
            &&& be_value(m.subrange(m.len() - 85, m.len() - 77)) == timestamp
        }),
        timestamp != other ==> version_message(timestamp) != version_message(other),
{
    lemma_version_payload_len(timestamp);
    lemma_version_payload_len(other);
    reveal_with_fuel(pow256, 9);
    assert(pow256(8) == 0x1_0000_0000_0000_0000);
    lemma_be_bytes_len(PROTOCOL_VERSION as nat, 4);
    lemma_be_bytes_len(1, 8);
    lemma_be_roundtrip(timestamp as nat, 8);
    lemma_be_roundtrip(other as nat, 8);
    let p = version_payload(timestamp);
    assert(p.subrange(12, 20) =~= be_bytes(timestamp as nat, 8));
    assert(version_payload(other).subrange(12, 20) =~= be_bytes(other as nat, 8));
    let m = version_message(timestamp);
    let head = magic() + version_command_field() + le_bytes(p.len(), 4) + checksum_of(p);
    assert(m == head + p);
    assert(m.subrange(m.len() - 97, m.len() as int) =~= p);
    assert(m.subrange(m.len() - 85, m.len() - 77) =~= p.subrange(12, 20));
    let q = version_payload(other);
    let mo = version_message(other);
    let head_o = magic() + version_command_field() + le_bytes(q.len(), 4) + checksum_of(q);
    assert(mo == head_o + q);
    assert(mo.subrange(mo.len() - 97, mo.len() as int) =~= q);
    if timestamp != other && m == mo {
        assert(p == q);
        assert(p.subrange(12, 20) == q.subrange(12, 20));
    }
}

/// `count` NUL characters.
pub open spec fn nuls(count: nat) -> Seq<char> {
    Seq::new(count, |i: int| '\0')
}

/// UTF-8 encodes a concatenation piece by piece.
proof fn lemma_encode_utf8_append(a: Seq<char>, b: Seq<char>)
    ensures
        encode_utf8(a + b) == encode_utf8(a) + encode_utf8(b),
    decreases a.len(),
{
    if a.len() == 0 {
        assert(a + b == b);
        assert(encode_utf8(a) == Seq::<u8>::empty());
        assert(encode_utf8(a) + encode_utf8(b) == encode_utf8(b));
    } else {
        lemma_encode_utf8_append(a.drop_first(), b);
        assert((a + b).drop_first() == a.drop_first() + b);
        assert((a + b)[0] == a[0]);
    }
}

/// NUL characters are encoded as zero bytes.
proof fn lemma_encode_nuls(k: nat)
    ensures
        encode_utf8(nuls(k)) == zeros(k),
    decreases k,
{
    if k > 0 {
        lemma_encode_nuls((k - 1) as nat);
        assert(nuls(k).drop_first() == nuls((k - 1) as nat));
        assert(nuls(k)[0] == '\0');
        assert(0u32 & 0x7F == 0) by (bit_vector);
        assert(vstd::utf8::encode_scalar(0u32) == seq![0u8]);
        assert(zeros(k) == seq![0u8] + zeros((k - 1) as nat));
    }
}

/// Stripping the NULs that padding added gives back a text that does not
/// end in NUL.
proof fn lemma_strip_nuls(c: Seq<char>, k: nat)
    requires
        c.len() == 0 || c.last() != '\0',
    ensures
        strip_trailing(c + nuls(k), '\0') == c,
    decreases k,
{
    if k > 0 {
        assert((c + nuls(k)).drop_last() == c + nuls((k - 1) as nat));
        assert((c + nuls(k)).last() == '\0');
        lemma_strip_nuls(c, (k - 1) as nat);
    } else {
        assert(c + nuls(0) == c);
    }
}

/// The header of a framed message reads back as what was framed: the
/// magic, a command field that is well-formed UTF-8 and decodes, once its
/// NUL padding is stripped, to the command, and the payload length.
pub proof fn lemma_framed_header_reads_back(command: Seq<char>, payload: Seq<u8>)
    requires
        encode_utf8(command).len() <= 12,
        command.len() == 0 || command.last() != '\0',
        payload.len() <= u32::MAX,
    ensures
        ({
            let f = framed(encode_utf8(command), payload);
            &&& f.subrange(0, 4) == magic()
            &&& vstd::utf8::valid_utf8(f.subrange(4, 16))
            &&& strip_trailing(vstd::utf8::decode_utf8(f.subrange(4, 16)), '\0') == command
            &&& le_field(f, 16, 20) == payload.len()
        }),
{
    let cb = encode_utf8(command);
    let k = (12 - cb.len()) as nat;
    let padded = command + nuls(k);
    lemma_encode_utf8_append(command, nuls(k));
    lemma_encode_nuls(k);
    assert(command_field(cb) == encode_utf8(padded));
    vstd::utf8::encode_utf8_valid_utf8(padded);
    vstd::utf8::encode_utf8_decode_utf8(padded);
    lemma_strip_nuls(command, k);
    lemma_le_bytes_len((payload.len() as u32) as nat, 4);
    reveal_with_fuel(crate::buffer::pow256, 5);
    assert(crate::buffer::pow256(4) == 0x1_0000_0000);
    crate::buffer::lemma_le_roundtrip(payload.len(), 4);
    let le = le_bytes((payload.len() as u32) as nat, 4);
    let cf = command_field(cb);
    let head = magic() + cf + le;
    let f = framed(cb, payload);
    assert(f == head + (checksum_of(payload) + payload));
    assert(cf.len() == 12);
    assert(head.len() == 20);
    assert(f.subrange(0, 20) =~= head);
    assert(f.subrange(0, 4) =~= head.subrange(0, 4));
    assert(head.subrange(0, 4) =~= magic());
    assert(f.subrange(4, 16) =~= head.subrange(4, 16));
    assert(head.subrange(4, 16) =~= cf);
    assert(f.subrange(16, 20) =~= head.subrange(16, 20));
    assert(head.subrange(16, 20) =~= le);
}

} // verus!
