//! Framing layer: raw connection bytes to and from typed HTTP/2 frames.
//!
//! The parser advances only on a complete frame, so a frame split across reads
//! never consumes input (RFC 9113 §4, §6). Per-type size and placement rules
//! live here; semantic stream rules live in [`crate::stream`], and header block
//! fragments pass through opaque.
//!
//! Padding and the deprecated priority fields are validated and dropped on
//! decode. The encoder emits neither, so decoding what was encoded gives the
//! frame back.

use crate::conn::ErrorCode;
use crate::octets::{
    as_slice, as_slice_mut, be16, be16_at, be32, be32_at, be32_round_trip, buffered, octets, put_slice, put_u16,
    put_u32, put_u8, read_u16, read_u32, slice_of,
};
use crate::stream::{lemma_low31, low31, StreamId};
use crate::text::{decimal, push_decimal};
use bytes::{Bytes, BytesMut};
use vstd::prelude::*;
use vstd::string::StringExecFns;

verus! {

/// Every frame begins with a fixed 9-octet header (RFC 9113 §4.1).
pub const FRAME_HEADER_LEN: usize = 9;

/// The largest payload the header's 24-bit length field can express (§4.1).
pub const MAX_ALLOWED_FRAME_SIZE: u32 = 16_777_215;

/// The initial and minimum `SETTINGS_MAX_FRAME_SIZE` (§6.5.2).
pub const DEFAULT_MAX_FRAME_SIZE: u32 = 16_384;

/// The optional priority block on a HEADERS frame: a 31-bit dependency with its
/// exclusive flag, then an 8-bit weight (§6.2).
pub const PRIORITY_FIELD_LEN: usize = 5;

/// PUSH_PROMISE's type code (§6.6). Push is disabled, so receiving one is a
/// violation rather than a frame worth modeling.
pub const PUSH_PROMISE_TYPE: u8 = 0x5;

// ---------------------------------------------------------------------------
// Frame types and flags
// ---------------------------------------------------------------------------

/// The frame types the proxy handles (RFC 9113 §6). Any other type code decodes
/// as `Unknown`, which §4.1 requires be ignored rather than rejected.
#[derive(Clone, Copy, PartialEq, Eq, PartialOrd, Ord, Hash, Debug, Structural)]
pub enum FrameType {
    Data,
    Headers,
    RstStream,
    Settings,
    Ping,
    GoAway,
    WindowUpdate,
    Continuation,
    Unknown(u8),
}

impl FrameType {
    /// The type a wire code names.
    pub open spec fn of(v: u8) -> FrameType {
        if v == 0x0 {
            FrameType::Data
        } else if v == 0x1 {
            FrameType::Headers
        } else if v == 0x3 {
            FrameType::RstStream
        } else if v == 0x4 {
            FrameType::Settings
        } else if v == 0x6 {
            FrameType::Ping
        } else if v == 0x7 {
            FrameType::GoAway
        } else if v == 0x8 {
            FrameType::WindowUpdate
        } else if v == 0x9 {
            FrameType::Continuation
        } else {
            FrameType::Unknown(v)
        }
    }

    /// The wire code of a type.
    pub open spec fn code(self) -> u8 {
        match self {
            FrameType::Data => 0x0,
            FrameType::Headers => 0x1,
            FrameType::RstStream => 0x3,
            FrameType::Settings => 0x4,
            FrameType::Ping => 0x6,
            FrameType::GoAway => 0x7,
            FrameType::WindowUpdate => 0x8,
            FrameType::Continuation => 0x9,
            FrameType::Unknown(other) => other,
        }
    }

    pub fn from_u8(v: u8) -> (t: FrameType)
        ensures
            t == FrameType::of(v),
    {
        match v {
            0x0 => FrameType::Data,
            0x1 => FrameType::Headers,
            0x3 => FrameType::RstStream,
            0x4 => FrameType::Settings,
            0x6 => FrameType::Ping,
            0x7 => FrameType::GoAway,
            0x8 => FrameType::WindowUpdate,
            0x9 => FrameType::Continuation,
            other => FrameType::Unknown(other),
        }
    }

    pub fn as_u8(self) -> (v: u8)
        ensures
            v == self.code(),
    {
        match self {
            FrameType::Data => 0x0,
            FrameType::Headers => 0x1,
            FrameType::RstStream => 0x3,
            FrameType::Settings => 0x4,
            FrameType::Ping => 0x6,
            FrameType::GoAway => 0x7,
            FrameType::WindowUpdate => 0x8,
            FrameType::Continuation => 0x9,
            FrameType::Unknown(other) => other,
        }
    }

    /// The type's name as messages spell it.
    pub open spec fn text(self) -> Seq<char> {
        match self {
            FrameType::Data => "Data"@,
            FrameType::Headers => "Headers"@,
            FrameType::RstStream => "RstStream"@,
            FrameType::Settings => "Settings"@,
            FrameType::Ping => "Ping"@,
            FrameType::GoAway => "GoAway"@,
            FrameType::WindowUpdate => "WindowUpdate"@,
            FrameType::Continuation => "Continuation"@,
            FrameType::Unknown(other) => "Unknown("@ + decimal(other as nat) + ")"@,
        }
    }

    /// Appends the type's name to a message.
    pub fn push_text(self, out: &mut String)
        ensures
            final(out)@ == old(out)@ + self.text(),
    {
        match self {
            FrameType::Data => out.append("Data"),
            FrameType::Headers => out.append("Headers"),
            FrameType::RstStream => out.append("RstStream"),
            FrameType::Settings => out.append("Settings"),
            FrameType::Ping => out.append("Ping"),
            FrameType::GoAway => out.append("GoAway"),
            FrameType::WindowUpdate => out.append("WindowUpdate"),
            FrameType::Continuation => out.append("Continuation"),
            FrameType::Unknown(other) => {
                out.append("Unknown(");
                push_decimal(out, other as u64);
                out.append(")");
            },
        }
        assert(out@ =~= old(out)@ + self.text());
    }
}

/// The frame flags byte (RFC 9113 §4.1). The same bit carries different names
/// in different frames.
#[derive(Clone, Copy, PartialEq, Eq, Default, Debug, Structural)]
pub struct Flags(pub u8);

/// END_STREAM on DATA and HEADERS.
pub const END_STREAM: u8 = 0x1;

/// ACK on SETTINGS and PING.
pub const ACK: u8 = 0x1;

/// END_HEADERS on HEADERS and CONTINUATION.
pub const END_HEADERS: u8 = 0x4;

/// PADDED on DATA and HEADERS.
pub const PADDED: u8 = 0x8;

/// PRIORITY on HEADERS.
pub const PRIORITY: u8 = 0x20;

/// Every bit of `bits` is set in `flags`.
pub open spec fn has_flags(flags: u8, bits: u8) -> bool {
    flags & bits == bits
}

/// `flags`, with `bits` set as well when `cond` holds.
pub open spec fn flags_if(flags: u8, cond: bool, bits: u8) -> u8 {
    if cond {
        flags | bits
    } else {
        flags
    }
}

impl Flags {
    pub fn empty() -> (f: Flags)
        ensures
            f.0 == 0,
    {
        Flags(0)
    }

    /// True if every bit set in `other` is also set here.
    pub fn contains(self, other: Flags) -> (b: bool)
        ensures
            b == has_flags(self.0, other.0),
    {
        self.0 & other.0 == other.0
    }

    /// Sets `other`'s bits when `cond` holds.
    pub fn set_if(self, cond: bool, other: Flags) -> (f: Flags)
        ensures
            f.0 == flags_if(self.0, cond, other.0),
    {
        if cond {
            Flags(self.0 | other.0)
        } else {
            self
        }
    }
}

/// What the encoder's flag bytes say of each flag the decoder asks for.
proof fn lemma_flag_bytes(end_stream: bool, end_headers: bool)
    ensures
        ({
            let one = flags_if(0, end_stream, END_STREAM);
            let both = flags_if(one, end_headers, END_HEADERS);
            let last = flags_if(0, end_headers, END_HEADERS);
            &&& has_flags(one, END_STREAM) == end_stream
            &&& !has_flags(one, PADDED)
            &&& has_flags(both, END_STREAM) == end_stream
            &&& has_flags(both, END_HEADERS) == end_headers
            &&& !has_flags(both, PADDED)
            &&& !has_flags(both, PRIORITY)
            &&& has_flags(last, END_HEADERS) == end_headers
        }),
{
    assert(0u8 & 1 == 0 && 0u8 & 4 == 0 && 0u8 & 8 == 0 && 0u8 & 0x20 == 0 && 0u8 | 1 == 1 && 0u8
        | 4 == 4 && 1u8 | 4 == 5 && 1u8 & 1 == 1 && 1u8 & 4 == 0 && 1u8 & 8 == 0 && 1u8 & 0x20 == 0
        && 4u8 & 1 == 0 && 4u8 & 4 == 4 && 4u8 & 8 == 0 && 4u8 & 0x20 == 0 && 5u8 & 1 == 1 && 5u8
        & 4 == 4 && 5u8 & 8 == 0 && 5u8 & 0x20 == 0) by (bit_vector);
}

// ---------------------------------------------------------------------------
// The frame header
// ---------------------------------------------------------------------------

/// The parsed 9-octet frame header, before the payload is interpreted.
#[derive(Clone, Copy, PartialEq, Eq, Debug, Structural)]
pub struct FrameHeader {
    /// Payload length; a 24-bit field on the wire.
    pub length: u32,
    pub kind: FrameType,
    pub flags: Flags,
    pub stream_id: StreamId,
}

/// The payload length a header announces.
pub open spec fn header_length(s: Seq<u8>) -> int {
    s[0] * 0x1_0000 + s[1] * 256 + s[2]
}

/// The stream a header addresses: the reserved bit is not part of the id.
pub open spec fn header_stream(s: Seq<u8>) -> u32 {
    low31(be32_at(s, 5) as u32)
}

/// The nine octets of a header.
pub open spec fn header_octets(length: u32, kind: FrameType, flags: u8, stream_id: u32) -> Seq<u8> {
    seq![
        (length / 0x1_0000 % 256) as u8,
        (length / 256 % 256) as u8,
        (length % 256) as u8,
        kind.code(),
        flags,
    ] + be32(low31(stream_id))
}

impl FrameHeader {
    /// Parses a header from at least [`FRAME_HEADER_LEN`] octets.
    pub fn parse(b: &[u8]) -> (h: FrameHeader)
        requires
            b@.len() >= FRAME_HEADER_LEN,
        ensures
            h.length == header_length(b@),
            h.kind == FrameType::of(b@[3]),
            h.flags.0 == b@[4],
            h.stream_id.value() == header_stream(b@),
    {
        FrameHeader {
            length: b[0] as u32 * 0x1_0000 + b[1] as u32 * 256 + b[2] as u32,
            kind: FrameType::from_u8(b[3]),
            flags: Flags(b[4]),
            stream_id: StreamId::new(read_u32(b, 5)),
        }
    }

    /// Serializes the header into `out`.
    pub fn write(&self, out: &mut BytesMut)
        ensures
            buffered(*final(out)) == buffered(*old(out)) + header_octets(
                self.length,
                self.kind,
                self.flags.0,
                self.stream_id.value(),
            ),
    {
        put_u8(out, (self.length / 0x1_0000 % 256) as u8);
        put_u8(out, (self.length / 256 % 256) as u8);
        put_u8(out, (self.length % 256) as u8);
        put_u8(out, self.kind.as_u8());
        put_u8(out, self.flags.0);
        proof {
            lemma_low31(self.stream_id.value());
        }
        put_u32(out, self.stream_id.get() & 0x7fff_ffff);
        assert(buffered(*out) =~= buffered(*old(out)) + header_octets(
            self.length,
            self.kind,
            self.flags.0,
            self.stream_id.value(),
        ));
    }
}

// ---------------------------------------------------------------------------
// Frames
// ---------------------------------------------------------------------------

/// A typed HTTP/2 frame. Header block fragments stay opaque here.
#[derive(Clone, PartialEq, Eq, Debug)]
pub enum Frame {
    Data { stream_id: StreamId, data: Bytes, end_stream: bool },
    Headers { stream_id: StreamId, block: Bytes, end_stream: bool, end_headers: bool },
    Settings {
        ack: bool,
        /// Raw id/value pairs, kept unmerged so an unknown identifier survives
        /// a re-encode.
        params: Vec<(u16, u32)>,
    },
    WindowUpdate { stream_id: StreamId, increment: u32 },
    RstStream { stream_id: StreamId, error_code: ErrorCode },
    Ping { data: [u8; 8], ack: bool },
    GoAway { last_stream_id: StreamId, error_code: ErrorCode, debug_data: Bytes },
    Continuation { stream_id: StreamId, block: Bytes, end_headers: bool },
}

/// What a frame says, with its octets spelled out.
#[verifier::ext_equal]
pub enum FrameModel {
    Data { stream_id: u32, data: Seq<u8>, end_stream: bool },
    Headers { stream_id: u32, block: Seq<u8>, end_stream: bool, end_headers: bool },
    Settings { ack: bool, params: Seq<(u16, u32)> },
    WindowUpdate { stream_id: u32, increment: u32 },
    RstStream { stream_id: u32, error_code: ErrorCode },
    Ping { data: Seq<u8>, ack: bool },
    GoAway { last_stream_id: u32, error_code: ErrorCode, debug_data: Seq<u8> },
    Continuation { stream_id: u32, block: Seq<u8>, end_headers: bool },
}

impl View for Frame {
    type V = FrameModel;

    open spec fn view(&self) -> FrameModel {
        match self {
            Frame::Data { stream_id, data, end_stream } => FrameModel::Data {
                stream_id: stream_id.value(),
                data: octets(*data),
                end_stream: *end_stream,
            },
            Frame::Headers { stream_id, block, end_stream, end_headers } => FrameModel::Headers {
                stream_id: stream_id.value(),
                block: octets(*block),
                end_stream: *end_stream,
                end_headers: *end_headers,
            },
            Frame::Settings { ack, params } => FrameModel::Settings { ack: *ack, params: params@ },
            Frame::WindowUpdate { stream_id, increment } => FrameModel::WindowUpdate {
                stream_id: stream_id.value(),
                increment: *increment,
            },
            Frame::RstStream { stream_id, error_code } => FrameModel::RstStream {
                stream_id: stream_id.value(),
                error_code: *error_code,
            },
            Frame::Ping { data, ack } => FrameModel::Ping { data: data@, ack: *ack },
            Frame::GoAway { last_stream_id, error_code, debug_data } => FrameModel::GoAway {
                last_stream_id: last_stream_id.value(),
                error_code: *error_code,
                debug_data: octets(*debug_data),
            },
            Frame::Continuation { stream_id, block, end_headers } => FrameModel::Continuation {
                stream_id: stream_id.value(),
                block: octets(*block),
                end_headers: *end_headers,
            },
        }
    }
}

impl FrameModel {
    /// The frame type this variant serializes as.
    pub open spec fn kind(self) -> FrameType {
        match self {
            FrameModel::Data { .. } => FrameType::Data,
            FrameModel::Headers { .. } => FrameType::Headers,
            FrameModel::Settings { .. } => FrameType::Settings,
            FrameModel::WindowUpdate { .. } => FrameType::WindowUpdate,
            FrameModel::RstStream { .. } => FrameType::RstStream,
            FrameModel::Ping { .. } => FrameType::Ping,
            FrameModel::GoAway { .. } => FrameType::GoAway,
            FrameModel::Continuation { .. } => FrameType::Continuation,
        }
    }

    /// The stream the frame is addressed to; 0 for connection-control frames.
    pub open spec fn stream(self) -> u32 {
        match self {
            FrameModel::Data { stream_id, .. } => stream_id,
            FrameModel::Headers { stream_id, .. } => stream_id,
            FrameModel::WindowUpdate { stream_id, .. } => stream_id,
            FrameModel::RstStream { stream_id, .. } => stream_id,
            FrameModel::Continuation { stream_id, .. } => stream_id,
            _ => 0,
        }
    }

    /// The flags byte the frame is written with.
    pub open spec fn flags(self) -> u8 {
        match self {
            FrameModel::Data { end_stream, .. } => flags_if(0, end_stream, END_STREAM),
            FrameModel::Headers { end_stream, end_headers, .. } => flags_if(
                flags_if(0, end_stream, END_STREAM),
                end_headers,
                END_HEADERS,
            ),
            FrameModel::Settings { ack, .. } => flags_if(0, ack, ACK),
            FrameModel::Ping { ack, .. } => flags_if(0, ack, ACK),
            FrameModel::Continuation { end_headers, .. } => flags_if(0, end_headers, END_HEADERS),
            _ => 0,
        }
    }

    /// The payload the frame is written with.
    pub open spec fn payload(self) -> Seq<u8> {
        match self {
            FrameModel::Data { data, .. } => data,
            FrameModel::Headers { block, .. } => block,
            FrameModel::Settings { params, .. } => param_octets(params),
            FrameModel::WindowUpdate { increment, .. } => be32(low31(increment)),
            FrameModel::RstStream { error_code, .. } => be32(error_code.value()),
            FrameModel::Ping { data, .. } => data,
            FrameModel::GoAway { last_stream_id, error_code, debug_data } => be32(
                low31(last_stream_id),
            ) + be32(error_code.value()) + debug_data,
            FrameModel::Continuation { block, .. } => block,
        }
    }

    /// The frame obeys the rules its type places on it: ids and increments are
    /// 31 bits wide, a stream-addressed frame names a stream, a SETTINGS
    /// acknowledgement is empty, and a PING carries eight octets.
    pub open spec fn valid(self) -> bool {
        match self {
            FrameModel::Data { stream_id, .. } => 0 < stream_id < 0x8000_0000,
            FrameModel::Headers { stream_id, .. } => 0 < stream_id < 0x8000_0000,
            FrameModel::Settings { ack, params } => ack ==> params.len() == 0,
            FrameModel::WindowUpdate { stream_id, increment } => stream_id < 0x8000_0000
                && increment < 0x8000_0000,
            FrameModel::RstStream { stream_id, .. } => 0 < stream_id < 0x8000_0000,
            FrameModel::Ping { data, .. } => data.len() == 8,
            FrameModel::GoAway { last_stream_id, .. } => last_stream_id < 0x8000_0000,
            FrameModel::Continuation { stream_id, .. } => 0 < stream_id < 0x8000_0000,
        }
    }
}

/// The wire form of a list of SETTINGS parameters: six octets each.
pub open spec fn param_octets(params: Seq<(u16, u32)>) -> Seq<u8>
    decreases params.len(),
{
    if params.len() == 0 {
        Seq::empty()
    } else {
        param_octets(params.drop_last()) + be16(params.last().0) + be32(params.last().1)
    }
}

/// The parameters a SETTINGS payload lists.
pub open spec fn params_of(payload: Seq<u8>) -> Seq<(u16, u32)> {
    Seq::new(
        payload.len() / 6,
        |i: int| (be16_at(payload, 6 * i) as u16, be32_at(payload, 6 * i + 2) as u32),
    )
}

/// A length as a 32-bit number, held at the largest one.
pub open spec fn len_u32(n: nat) -> u32 {
    if n > u32::MAX {
        u32::MAX
    } else {
        n as u32
    }
}

/// The octets a frame is written as, or why it cannot be written: the header's
/// length field must be able to hold the payload's length.
pub open spec fn encoded(f: FrameModel) -> Result<Seq<u8>, FrameError> {
    let payload = f.payload();
    if payload.len() > MAX_ALLOWED_FRAME_SIZE {
        Err(FrameError::Oversized { len: len_u32(payload.len()), max: MAX_ALLOWED_FRAME_SIZE })
    } else {
        Ok(header_octets(payload.len() as u32, f.kind(), f.flags(), f.stream()) + payload)
    }
}

/// Framing errors. Each maps to the connection-level [`ErrorCode`] the RFC
/// requires, surfaced via [`FrameError::code`].
#[derive(Clone, Copy, PartialEq, Eq, Debug, Structural)]
pub enum FrameError {
    Oversized { len: u32, max: u32 },
    BadLength { kind: FrameType, len: u32 },
    BadStreamId(FrameType),
    PaddingOverflow { kind: FrameType },
    UnexpectedPushPromise,
}

impl FrameError {
    /// The code the RFC assigns to the violation: sizes are
    /// `FRAME_SIZE_ERROR`, everything else `PROTOCOL_ERROR`.
    pub open spec fn scope(self) -> ErrorCode {
        if self is Oversized || self is BadLength {
            ErrorCode::FrameSizeError
        } else {
            ErrorCode::ProtocolError
        }
    }

    /// The connection error code this framing violation is reported with.
    pub fn code(&self) -> (c: ErrorCode)
        ensures
            c == self.scope(),
    {
        match self {
            FrameError::Oversized { .. } | FrameError::BadLength { .. } => {
                ErrorCode::FrameSizeError
            },
            FrameError::BadStreamId(_)
            | FrameError::PaddingOverflow { .. }
            | FrameError::UnexpectedPushPromise => ErrorCode::ProtocolError,
        }
    }

    /// The message this error reads as.
    pub open spec fn text(self) -> Seq<char> {
        match self {
            FrameError::Oversized { len, max } => "frame length "@ + decimal(len as nat)
                + " exceeds SETTINGS_MAX_FRAME_SIZE "@ + decimal(max as nat),
            FrameError::BadLength { kind, len } => kind.text() + " frame has an invalid length ("@
                + decimal(len as nat) + ")"@,
            FrameError::BadStreamId(kind) => kind.text() + " frame arrived on an invalid stream"@,
            FrameError::PaddingOverflow { kind } => kind.text()
                + " frame padding is at least as long as its payload"@,
            FrameError::UnexpectedPushPromise =>
                "received PUSH_PROMISE, but this endpoint advertises ENABLE_PUSH = 0"@,
        }
    }

    /// The error as a message.
    pub fn message(&self) -> (s: String)
        ensures
            s@ == self.text(),
    {
        let mut s = String::new();
        match self {
            FrameError::Oversized { len, max } => {
                s.append("frame length ");
                push_decimal(&mut s, *len as u64);
                s.append(" exceeds SETTINGS_MAX_FRAME_SIZE ");
                push_decimal(&mut s, *max as u64);
            },
            FrameError::BadLength { kind, len } => {
                kind.push_text(&mut s);
                s.append(" frame has an invalid length (");
                push_decimal(&mut s, *len as u64);
                s.append(")");
            },
            FrameError::BadStreamId(kind) => {
                kind.push_text(&mut s);
                s.append(" frame arrived on an invalid stream");
            },
            FrameError::PaddingOverflow { kind } => {
                kind.push_text(&mut s);
                s.append(" frame padding is at least as long as its payload");
            },
            FrameError::UnexpectedPushPromise => {
                s.append("received PUSH_PROMISE, but this endpoint advertises ENABLE_PUSH = 0");
            },
        }
        assert(s@ =~= self.text());
        s
    }
}

// ---------------------------------------------------------------------------
// What the octets of a payload mean, per frame type
// ---------------------------------------------------------------------------

/// The payload of a DATA or HEADERS frame without its padding (§6.1): with
/// PADDED set, the first octet counts the padding octets at the end, and both
/// it and the padding are removed.
pub open spec fn unpadded(kind: FrameType, flags: u8, payload: Seq<u8>) -> Result<
    Seq<u8>,
    FrameError,
> {
    if !has_flags(flags, PADDED) {
        Ok(payload)
    } else if payload.len() == 0 {
        Err(FrameError::BadLength { kind, len: 0 })
    } else if payload[0] >= payload.len() {
        Err(FrameError::PaddingOverflow { kind })
    } else {
        Ok(payload.subrange(1, payload.len() - payload[0]))
    }
}

/// A DATA payload (§6.1): any length, never on stream 0.
pub open spec fn data_of(flags: u8, id: u32, payload: Seq<u8>) -> Result<FrameModel, FrameError> {
    if id == 0 {
        Err(FrameError::BadStreamId(FrameType::Data))
    } else {
        match unpadded(FrameType::Data, flags, payload) {
            Ok(data) => Ok(
                FrameModel::Data {
                    stream_id: id,
                    data,
                    end_stream: has_flags(flags, END_STREAM),
                },
            ),
            Err(e) => Err(e),
        }
    }
}

/// A HEADERS payload (§6.2): never on stream 0; padding and the priority block
/// are dropped.
pub open spec fn headers_of(flags: u8, id: u32, payload: Seq<u8>) -> Result<
    FrameModel,
    FrameError,
> {
    if id == 0 {
        Err(FrameError::BadStreamId(FrameType::Headers))
    } else {
        match unpadded(FrameType::Headers, flags, payload) {
            Ok(block) => if has_flags(flags, PRIORITY) && block.len() < PRIORITY_FIELD_LEN {
                Err(FrameError::BadLength { kind: FrameType::Headers, len: block.len() as u32 })
            } else {
                Ok(
                    FrameModel::Headers {
                        stream_id: id,
                        block: if has_flags(flags, PRIORITY) {
                            block.skip(PRIORITY_FIELD_LEN as int)
                        } else {
                            block
                        },
                        end_stream: has_flags(flags, END_STREAM),
                        end_headers: has_flags(flags, END_HEADERS),
                    },
                )
            },
            Err(e) => Err(e),
        }
    }
}

/// A SETTINGS payload (§6.5): stream 0 only; empty with ACK, otherwise a
/// sequence of six-octet parameters.
pub open spec fn settings_of(flags: u8, id: u32, payload: Seq<u8>) -> Result<
    FrameModel,
    FrameError,
> {
    if id != 0 {
        Err(FrameError::BadStreamId(FrameType::Settings))
    } else if (if has_flags(flags, ACK) {
        payload.len() != 0
    } else {
        payload.len() % 6 != 0
    }) {
        Err(FrameError::BadLength { kind: FrameType::Settings, len: payload.len() as u32 })
    } else {
        Ok(FrameModel::Settings { ack: has_flags(flags, ACK), params: params_of(payload) })
    }
}

/// A RST_STREAM payload (§6.4): four octets of error code, never on stream 0.
pub open spec fn rst_stream_of(id: u32, payload: Seq<u8>) -> Result<FrameModel, FrameError> {
    if id == 0 {
        Err(FrameError::BadStreamId(FrameType::RstStream))
    } else if payload.len() != 4 {
        Err(FrameError::BadLength { kind: FrameType::RstStream, len: payload.len() as u32 })
    } else {
        Ok(
            FrameModel::RstStream {
                stream_id: id,
                error_code: ErrorCode::from_value(be32_at(payload, 0) as u32),
            },
        )
    }
}

/// A PING payload (§6.7): eight opaque octets, stream 0 only.
pub open spec fn ping_of(flags: u8, id: u32, payload: Seq<u8>) -> Result<FrameModel, FrameError> {
    if id != 0 {
        Err(FrameError::BadStreamId(FrameType::Ping))
    } else if payload.len() != 8 {
        Err(FrameError::BadLength { kind: FrameType::Ping, len: payload.len() as u32 })
    } else {
        Ok(FrameModel::Ping { data: payload, ack: has_flags(flags, ACK) })
    }
}

/// A GOAWAY payload (§6.8): last stream id, error code, then debug data; stream
/// 0 only.
pub open spec fn go_away_of(id: u32, payload: Seq<u8>) -> Result<FrameModel, FrameError> {
    if id != 0 {
        Err(FrameError::BadStreamId(FrameType::GoAway))
    } else if payload.len() < 8 {
        Err(FrameError::BadLength { kind: FrameType::GoAway, len: payload.len() as u32 })
    } else {
        Ok(
            FrameModel::GoAway {
                last_stream_id: low31(be32_at(payload, 0) as u32),
                error_code: ErrorCode::from_value(be32_at(payload, 4) as u32),
                debug_data: payload.skip(8),
            },
        )
    }
}

/// A WINDOW_UPDATE payload (§6.9): four octets, a 31-bit increment, on any
/// stream. A zero increment is for the connection layer to judge.
pub open spec fn window_update_of(id: u32, payload: Seq<u8>) -> Result<FrameModel, FrameError> {
    if payload.len() != 4 {
        Err(FrameError::BadLength { kind: FrameType::WindowUpdate, len: payload.len() as u32 })
    } else {
        Ok(
            FrameModel::WindowUpdate {
                stream_id: id,
                increment: low31(be32_at(payload, 0) as u32),
            },
        )
    }
}

/// A CONTINUATION payload (§6.10): an opaque fragment, never on stream 0.
pub open spec fn continuation_of(flags: u8, id: u32, payload: Seq<u8>) -> Result<
    FrameModel,
    FrameError,
> {
    if id == 0 {
        Err(FrameError::BadStreamId(FrameType::Continuation))
    } else {
        Ok(
            FrameModel::Continuation {
                stream_id: id,
                block: payload,
                end_headers: has_flags(flags, END_HEADERS),
            },
        )
    }
}

/// A header and payload as a typed frame; `Ok(None)` for a type that is
/// ignored (§4.1).
#[verifier::opaque]
pub open spec fn frame_of(kind: FrameType, flags: u8, id: u32, payload: Seq<u8>) -> Result<
    Option<FrameModel>,
    FrameError,
> {
    let known = match kind {
        FrameType::Data => data_of(flags, id, payload),
        FrameType::Headers => headers_of(flags, id, payload),
        FrameType::RstStream => rst_stream_of(id, payload),
        FrameType::Settings => settings_of(flags, id, payload),
        FrameType::Ping => ping_of(flags, id, payload),
        FrameType::GoAway => go_away_of(id, payload),
        FrameType::WindowUpdate => window_update_of(id, payload),
        FrameType::Continuation => continuation_of(flags, id, payload),
        FrameType::Unknown(_) => Err(FrameError::UnexpectedPushPromise),
    };
    if kind is Unknown && kind != FrameType::Unknown(PUSH_PROMISE_TYPE) {
        Ok(None)
    } else {
        match known {
            Ok(f) => Ok(Some(f)),
            Err(e) => Err(e),
        }
    }
}

/// One thing taken off the wire: a frame, or a frame of a type that is ignored.
#[derive(Clone, PartialEq, Eq, Debug)]
pub enum Decoded {
    Frame(Frame),
    Ignored { kind: FrameType, stream_id: StreamId },
}

/// What was taken off the wire.
#[verifier::ext_equal]
pub enum DecodedModel {
    Frame(FrameModel),
    Ignored { kind: FrameType, stream_id: u32 },
}

impl View for Decoded {
    type V = DecodedModel;

    open spec fn view(&self) -> DecodedModel {
        match self {
            Decoded::Frame(f) => DecodedModel::Frame(f@),
            Decoded::Ignored { kind, stream_id } => DecodedModel::Ignored {
                kind: *kind,
                stream_id: stream_id.value(),
            },
        }
    }
}

/// What the front of a reassembly buffer decodes to, and what stays in it.
///
/// Nothing is consumed while the frame is partial or its announced length is
/// over the limit; a complete frame is consumed whether or not it is legal.
pub open spec fn taken(max: u32, s: Seq<u8>) -> (Result<Option<DecodedModel>, FrameError>, Seq<u8>) {
    let total = FRAME_HEADER_LEN + header_length(s);
    if s.len() < FRAME_HEADER_LEN {
        (Ok(None), s)
    } else if header_length(s) > max {
        (Err(FrameError::Oversized { len: header_length(s) as u32, max }), s)
    } else if s.len() < total {
        (Ok(None), s)
    } else {
        let kind = FrameType::of(s[3]);
        let payload = s.subrange(FRAME_HEADER_LEN as int, total);
        (
            match frame_of(kind, s[4], header_stream(s), payload) {
                Ok(Some(f)) => Ok(Some(DecodedModel::Frame(f))),
                Ok(None) => Ok(
                    Some(DecodedModel::Ignored { kind, stream_id: header_stream(s) }),
                ),
                Err(e) => Err(e),
            },
            s.skip(total),
        )
    }
}

/// The first frame in a reassembly buffer that is not ignored, and what stays
/// in the buffer behind it.
pub open spec fn decoded(max: u32, s: Seq<u8>) -> (Result<Option<FrameModel>, FrameError>, Seq<u8>)
    decreases s.len(),
{
    let (r, rest) = taken(max, s);
    match r {
        Err(e) => (Err(e), rest),
        Ok(None) => (Ok(None), rest),
        Ok(Some(DecodedModel::Frame(f))) => (Ok(Some(f)), rest),
        Ok(Some(DecodedModel::Ignored { .. })) => if rest.len() < s.len() {
            decoded(max, rest)
        } else {
            (Ok(None), rest)
        },
    }
}

// ---------------------------------------------------------------------------
// Parsing payloads
// ---------------------------------------------------------------------------

/// A parse result, with the frame spelled out.
pub open spec fn parse_view(r: Result<Frame, FrameError>) -> Result<FrameModel, FrameError> {
    match r {
        Ok(f) => Ok(f@),
        Err(e) => Err(e),
    }
}

impl Frame {
    /// The frame type this variant serializes as.
    pub fn kind(&self) -> (t: FrameType)
        ensures
            t == self@.kind(),
    {
        match self {
            Frame::Data { .. } => FrameType::Data,
            Frame::Headers { .. } => FrameType::Headers,
            Frame::Settings { .. } => FrameType::Settings,
            Frame::WindowUpdate { .. } => FrameType::WindowUpdate,
            Frame::RstStream { .. } => FrameType::RstStream,
            Frame::Ping { .. } => FrameType::Ping,
            Frame::GoAway { .. } => FrameType::GoAway,
            Frame::Continuation { .. } => FrameType::Continuation,
        }
    }

    /// The stream this frame is addressed to; the connection for SETTINGS, PING
    /// and GOAWAY.
    pub fn stream_id(&self) -> (id: StreamId)
        ensures
            id.value() == self@.stream(),
    {
        match self {
            Frame::Data { stream_id, .. }
            | Frame::Headers { stream_id, .. }
            | Frame::WindowUpdate { stream_id, .. }
            | Frame::RstStream { stream_id, .. }
            | Frame::Continuation { stream_id, .. } => *stream_id,
            Frame::Settings { .. } | Frame::Ping { .. } | Frame::GoAway { .. } => {
                StreamId::connection()
            },
        }
    }

    /// Interprets a header and opaque payload as a typed frame. `Ok(None)`
    /// means a well-formed frame of a type that is ignored.
    fn from_parts(header: FrameHeader, payload: Bytes) -> (r: Result<Option<Frame>, FrameError>)
        ensures
            ({
                let expected = frame_of(
                    header.kind,
                    header.flags.0,
                    header.stream_id.value(),
                    octets(payload),
                );
                match r {
                    Ok(Some(f)) => expected == Ok::<Option<FrameModel>, FrameError>(Some(f@)),
                    Ok(None) => expected == Ok::<Option<FrameModel>, FrameError>(None),
                    Err(e) => expected == Err::<Option<FrameModel>, FrameError>(e),
                }
            }),
    {
        reveal(frame_of);
        let known = match header.kind {
            FrameType::Data => Self::data_from_parts(header, payload),
            FrameType::Headers => Self::headers_from_parts(header, payload),
            FrameType::RstStream => Self::rst_stream_from_parts(header, payload),
            FrameType::Settings => Self::settings_from_parts(header, payload),
            FrameType::Ping => Self::ping_from_parts(header, payload),
            FrameType::GoAway => Self::go_away_from_parts(header, payload),
            FrameType::WindowUpdate => Self::window_update_from_parts(header, payload),
            FrameType::Continuation => Self::continuation_from_parts(header, payload),
            FrameType::Unknown(code) => {
                if code == PUSH_PROMISE_TYPE {
                    Err(FrameError::UnexpectedPushPromise)
                } else {
                    return Ok(None);
                }
            },
        };
        match known {
            Ok(frame) => Ok(Some(frame)),
            Err(e) => Err(e),
        }
    }

    /// Validates and strips the optional padding shared by DATA and HEADERS.
    fn strip_padding(kind: FrameType, flags: Flags, payload: Bytes) -> (r: Result<
        Bytes,
        FrameError,
    >)
        ensures
            match r {
                Ok(b) => unpadded(kind, flags.0, octets(payload)) == Ok::<Seq<u8>, FrameError>(
                    octets(b),
                ),
                Err(e) => unpadded(kind, flags.0, octets(payload)) == Err::<Seq<u8>, FrameError>(e),
            },
    {
        if !flags.contains(Flags(PADDED)) {
            return Ok(payload);
        }
        if payload.is_empty() {
            return Err(FrameError::BadLength { kind, len: 0 });
        }
        let pad_len = as_slice(&payload)[0] as usize;
        if pad_len >= payload.len() {
            return Err(FrameError::PaddingOverflow { kind });
        }
        Ok(slice_of(&payload, 1, payload.len() - pad_len))
    }

    /// Parses a DATA payload (§6.1).
    fn data_from_parts(header: FrameHeader, payload: Bytes) -> (r: Result<Frame, FrameError>)
        ensures
            parse_view(r) == data_of(header.flags.0, header.stream_id.value(), octets(payload)),
    {
        if header.stream_id.is_connection() {
            return Err(FrameError::BadStreamId(FrameType::Data));
        }
        let data = match Self::strip_padding(FrameType::Data, header.flags, payload) {
            Ok(data) => data,
            Err(e) => return Err(e),
        };
        Ok(
            Frame::Data {
                stream_id: header.stream_id,
                data,
                end_stream: header.flags.contains(Flags(END_STREAM)),
            },
        )
    }

    /// Parses a HEADERS payload (§6.2).
    fn headers_from_parts(header: FrameHeader, payload: Bytes) -> (r: Result<Frame, FrameError>)
        ensures
            parse_view(r) == headers_of(header.flags.0, header.stream_id.value(), octets(payload)),
    {
        if header.stream_id.is_connection() {
            return Err(FrameError::BadStreamId(FrameType::Headers));
        }
        let mut block = match Self::strip_padding(FrameType::Headers, header.flags, payload) {
            Ok(block) => block,
            Err(e) => return Err(e),
        };
        if header.flags.contains(Flags(PRIORITY)) {
            if block.len() < PRIORITY_FIELD_LEN {
                return Err(
                    FrameError::BadLength { kind: FrameType::Headers, len: block.len() as u32 },
                );
            }
            block = slice_of(&block, PRIORITY_FIELD_LEN, block.len());
        }
        Ok(
            Frame::Headers {
                stream_id: header.stream_id,
                block,
                end_stream: header.flags.contains(Flags(END_STREAM)),
                end_headers: header.flags.contains(Flags(END_HEADERS)),
            },
        )
    }

    /// Parses a SETTINGS payload (§6.5).
    fn settings_from_parts(header: FrameHeader, payload: Bytes) -> (r: Result<Frame, FrameError>)
        ensures
            parse_view(r) == settings_of(header.flags.0, header.stream_id.value(), octets(payload)),
    {
        if !header.stream_id.is_connection() {
            return Err(FrameError::BadStreamId(FrameType::Settings));
        }
        let bytes = as_slice(&payload);
        if header.flags.contains(Flags(ACK)) {
            if bytes.len() != 0 {
                return Err(
                    FrameError::BadLength { kind: FrameType::Settings, len: bytes.len() as u32 },
                );
            }
            let params: Vec<(u16, u32)> = Vec::new();
            assert(params@ =~= params_of(octets(payload)));
            return Ok(Frame::Settings { ack: true, params });
        }
        if bytes.len() % 6 != 0 {
            return Err(
                FrameError::BadLength { kind: FrameType::Settings, len: bytes.len() as u32 },
            );
        }
        let mut params: Vec<(u16, u32)> = Vec::new();
        let mut at: usize = 0;
        while at < bytes.len()
            invariant
                at <= bytes@.len(),
                bytes@.len() % 6 == 0,
                at == 6 * params@.len(),
                forall|i: int|
                    0 <= i < params@.len() ==> #[trigger] params@[i] == (
                        be16_at(bytes@, 6 * i) as u16,
                        be32_at(bytes@, 6 * i + 2) as u32,
                    ),
            decreases bytes@.len() - at,
        {
            params.push((read_u16(bytes, at), read_u32(bytes, at + 2)));
            at += 6;
        }
        assert(params@ =~= params_of(octets(payload)));
        Ok(Frame::Settings { ack: false, params })
    }

    /// Parses a RST_STREAM payload (§6.4).
    fn rst_stream_from_parts(header: FrameHeader, payload: Bytes) -> (r: Result<Frame, FrameError>)
        ensures
            parse_view(r) == rst_stream_of(header.stream_id.value(), octets(payload)),
    {
        if header.stream_id.is_connection() {
            return Err(FrameError::BadStreamId(FrameType::RstStream));
        }
        let bytes = as_slice(&payload);
        if bytes.len() != 4 {
            return Err(
                FrameError::BadLength { kind: FrameType::RstStream, len: bytes.len() as u32 },
            );
        }
        Ok(
            Frame::RstStream {
                stream_id: header.stream_id,
                error_code: ErrorCode::from_u32(read_u32(bytes, 0)),
            },
        )
    }

    /// Parses a PING payload (§6.7).
    fn ping_from_parts(header: FrameHeader, payload: Bytes) -> (r: Result<Frame, FrameError>)
        ensures
            parse_view(r) == ping_of(header.flags.0, header.stream_id.value(), octets(payload)),
    {
        if !header.stream_id.is_connection() {
            return Err(FrameError::BadStreamId(FrameType::Ping));
        }
        let b = as_slice(&payload);
        if b.len() != 8 {
            return Err(FrameError::BadLength { kind: FrameType::Ping, len: b.len() as u32 });
        }
        let data: [u8; 8] = [b[0], b[1], b[2], b[3], b[4], b[5], b[6], b[7]];
        assert(data@ =~= octets(payload));
        Ok(Frame::Ping { data, ack: header.flags.contains(Flags(ACK)) })
    }

    /// Parses a GOAWAY payload (§6.8).
    fn go_away_from_parts(header: FrameHeader, payload: Bytes) -> (r: Result<Frame, FrameError>)
        ensures
            parse_view(r) == go_away_of(header.stream_id.value(), octets(payload)),
    {
        if !header.stream_id.is_connection() {
            return Err(FrameError::BadStreamId(FrameType::GoAway));
        }
        let bytes = as_slice(&payload);
        if bytes.len() < 8 {
            return Err(FrameError::BadLength { kind: FrameType::GoAway, len: bytes.len() as u32 });
        }
        Ok(
            Frame::GoAway {
                last_stream_id: StreamId::new(read_u32(bytes, 0)),
                error_code: ErrorCode::from_u32(read_u32(bytes, 4)),
                debug_data: slice_of(&payload, 8, payload.len()),
            },
        )
    }

    /// Parses a WINDOW_UPDATE payload (§6.9).
    fn window_update_from_parts(header: FrameHeader, payload: Bytes) -> (r: Result<
        Frame,
        FrameError,
    >)
        ensures
            parse_view(r) == window_update_of(header.stream_id.value(), octets(payload)),
    {
        let bytes = as_slice(&payload);
        if bytes.len() != 4 {
            return Err(
                FrameError::BadLength { kind: FrameType::WindowUpdate, len: bytes.len() as u32 },
            );
        }
        let raw = read_u32(bytes, 0);
        proof {
            lemma_low31(raw);
        }
        Ok(Frame::WindowUpdate { stream_id: header.stream_id, increment: raw & 0x7fff_ffff })
    }

    /// Parses a CONTINUATION payload (§6.10).
    fn continuation_from_parts(header: FrameHeader, payload: Bytes) -> (r: Result<
        Frame,
        FrameError,
    >)
        ensures
            parse_view(r) == continuation_of(
                header.flags.0,
                header.stream_id.value(),
                octets(payload),
            ),
    {
        if header.stream_id.is_connection() {
            return Err(FrameError::BadStreamId(FrameType::Continuation));
        }
        Ok(
            Frame::Continuation {
                stream_id: header.stream_id,
                block: payload,
                end_headers: header.flags.contains(Flags(END_HEADERS)),
            },
        )
    }

    /// Writes a frame header, refusing a payload the 24-bit length field cannot
    /// express.
    fn write_header(
        kind: FrameType,
        flags: Flags,
        stream_id: StreamId,
        payload_len: usize,
        out: &mut BytesMut,
    ) -> (r: Result<(), FrameError>)
        ensures
            payload_len > MAX_ALLOWED_FRAME_SIZE ==> {
                &&& r == Err::<(), FrameError>(
                    FrameError::Oversized {
                        len: len_u32(payload_len as nat),
                        max: MAX_ALLOWED_FRAME_SIZE,
                    },
                )
                &&& buffered(*final(out)) == buffered(*old(out))
            },
            payload_len <= MAX_ALLOWED_FRAME_SIZE ==> {
                &&& r == Ok::<(), FrameError>(())
                &&& buffered(*final(out)) == buffered(*old(out)) + header_octets(
                    payload_len as u32,
                    kind,
                    flags.0,
                    stream_id.value(),
                )
            },
    {
        if payload_len > MAX_ALLOWED_FRAME_SIZE as usize {
            let len: u32 = if payload_len as u64 > u32::MAX as u64 {
                u32::MAX
            } else {
                payload_len as u32
            };
            return Err(FrameError::Oversized { len, max: MAX_ALLOWED_FRAME_SIZE });
        }
        let header = FrameHeader { length: payload_len as u32, kind, flags, stream_id };
        header.write(out);
        Ok(())
    }

    /// Serializes this frame onto `out`. Neither padding nor priority fields
    /// are ever written. A frame that cannot be written leaves `out` as it was.
    fn write(&self, out: &mut BytesMut) -> (r: Result<(), FrameError>)
        ensures
            match r {
                Ok(()) => encoded(self@) is Ok && buffered(*final(out)) == buffered(*old(out))
                    + encoded(self@)->Ok_0,
                Err(e) => encoded(self@) == Err::<Seq<u8>, FrameError>(e) && buffered(*final(out))
                    == buffered(*old(out)),
            },
    {
        let kind = self.kind();
        let ghost before = buffered(*out);
        let r = match self {
            Frame::Data { stream_id, data, end_stream } => {
                let flags = Flags::empty().set_if(*end_stream, Flags(END_STREAM));
                let r = Self::write_header(kind, flags, *stream_id, data.len(), out);
                if r.is_ok() {
                    put_slice(out, as_slice(data));
                }
                r
            },
            Frame::Headers { stream_id, block, end_stream, end_headers } => {
                let flags = Flags::empty().set_if(*end_stream, Flags(END_STREAM)).set_if(
                    *end_headers,
                    Flags(END_HEADERS),
                );
                let r = Self::write_header(kind, flags, *stream_id, block.len(), out);
                if r.is_ok() {
                    put_slice(out, as_slice(block));
                }
                r
            },
            Frame::Settings { ack, params } => {
                let flags = Flags::empty().set_if(*ack, Flags(ACK));
                proof {
                    lemma_param_octets(params@);
                }
                let payload_len: usize = match params.len().checked_mul(6) {
                    Some(n) => n,
                    None => usize::MAX,
                };
                let r = Self::write_header(
                    kind,
                    flags,
                    StreamId::connection(),
                    payload_len,
                    out,
                );
                if r.is_ok() {
                    let ghost head = buffered(*out);
                    let mut i: usize = 0;
                    assert(params@.take(0) =~= Seq::empty());
                    while i < params.len()
                        invariant
                            i <= params@.len(),
                            buffered(*out) == head + param_octets(params@.take(i as int)),
                        decreases params@.len() - i,
                    {
                        let (id, value) = params[i];
                        put_u16(out, id);
                        put_u32(out, value);
                        proof {
                            assert(params@.take(i + 1).drop_last() =~= params@.take(i as int));
                            assert(buffered(*out) =~= head + param_octets(params@.take(i + 1)));
                        }
                        i += 1;
                    }
                    assert(params@.take(i as int) =~= params@);
                }
                r
            },
            Frame::WindowUpdate { stream_id, increment } => {
                let r = Self::write_header(kind, Flags::empty(), *stream_id, 4, out);
                proof {
                    lemma_low31(*increment);
                }
                put_u32(out, *increment & 0x7fff_ffff);
                r
            },
            Frame::RstStream { stream_id, error_code } => {
                let r = Self::write_header(kind, Flags::empty(), *stream_id, 4, out);
                put_u32(out, error_code.as_u32());
                r
            },
            Frame::Ping { data, ack } => {
                let flags = Flags::empty().set_if(*ack, Flags(ACK));
                let r = Self::write_header(kind, flags, StreamId::connection(), 8, out);
                put_slice(out, data.as_slice());
                r
            },
            Frame::GoAway { last_stream_id, error_code, debug_data } => {
                let payload_len: usize = debug_data.len().saturating_add(8);
                let r = Self::write_header(
                    kind,
                    Flags::empty(),
                    StreamId::connection(),
                    payload_len,
                    out,
                );
                if r.is_ok() {
                    proof {
                        lemma_low31(last_stream_id.value());
                    }
                    put_u32(out, last_stream_id.get() & 0x7fff_ffff);
                    put_u32(out, error_code.as_u32());
                    put_slice(out, as_slice(debug_data));
                }
                r
            },
            Frame::Continuation { stream_id, block, end_headers } => {
                let flags = Flags::empty().set_if(*end_headers, Flags(END_HEADERS));
                let r = Self::write_header(kind, flags, *stream_id, block.len(), out);
                if r.is_ok() {
                    put_slice(out, as_slice(block));
                }
                r
            },
        };
        proof {
            if r is Ok {
                assert(buffered(*out) =~= before + encoded(self@)->Ok_0);
            }
        }
        r
    }
}

// ---------------------------------------------------------------------------
// The codec
// ---------------------------------------------------------------------------

/// The framing seam: bytes to and from typed frames.
///
/// Holds the negotiated `MAX_FRAME_SIZE` so oversized frames are rejected
/// during decode.
pub struct FrameCodec {
    pub max_frame_size: u32,
}

impl FrameCodec {
    /// A codec bounded by `max_frame_size`, the value this endpoint advertised.
    pub fn new(max_frame_size: u32) -> (c: Self)
        ensures
            c.max_frame_size == max_frame_size,
    {
        FrameCodec { max_frame_size }
    }

    /// Raises the accepted frame size after our SETTINGS are acknowledged.
    pub fn set_max_frame_size(&mut self, max_frame_size: u32)
        ensures
            final(self).max_frame_size == max_frame_size,
    {
        self.max_frame_size = max_frame_size;
    }

    /// Tries to take one frame off the front of `buf`, reporting a frame of an
    /// ignored type as such.
    ///
    /// `Ok(None)`, consuming nothing, while `buf` does not hold a complete
    /// frame.
    pub fn decode_any(&mut self, buf: &mut BytesMut) -> (r: Result<Option<Decoded>, FrameError>)
        ensures
            *final(self) == *old(self),
            ({
                let (expected, rest) = taken(old(self).max_frame_size, buffered(*old(buf)));
                &&& buffered(*final(buf)) == rest
                &&& match r {
                    Ok(Some(d)) => expected == Ok::<Option<DecodedModel>, FrameError>(Some(d@)),
                    Ok(None) => expected == Ok::<Option<DecodedModel>, FrameError>(None),
                    Err(e) => expected == Err::<Option<DecodedModel>, FrameError>(e),
                }
            }),
    {
        if buf.len() < FRAME_HEADER_LEN {
            return Ok(None);
        }
        let header = FrameHeader::parse(as_slice_mut(buf));
        if header.length > self.max_frame_size {
            return Err(FrameError::Oversized { len: header.length, max: self.max_frame_size });
        }
        let total: usize = FRAME_HEADER_LEN + header.length as usize;
        if buf.len() < total {
            return Ok(None);
        }
        let ghost s = buffered(*buf);
        let frame = buf.split_to(total).freeze();
        let payload = slice_of(&frame, FRAME_HEADER_LEN, total);
        assert(octets(payload) =~= s.subrange(FRAME_HEADER_LEN as int, total as int));
        assert(buffered(*buf) =~= s.skip(total as int));
        match Frame::from_parts(header, payload) {
            Ok(Some(frame)) => Ok(Some(Decoded::Frame(frame))),
            Ok(None) => Ok(
                Some(Decoded::Ignored { kind: header.kind, stream_id: header.stream_id }),
            ),
            Err(e) => Err(e),
        }
    }

    /// Tries to decode one frame from the front of `buf`. Frames of an ignored
    /// type are consumed and skipped.
    pub fn decode(&mut self, buf: &mut BytesMut) -> (r: Result<Option<Frame>, FrameError>)
        ensures
            *final(self) == *old(self),
            ({
                let (expected, rest) = decoded(old(self).max_frame_size, buffered(*old(buf)));
                &&& buffered(*final(buf)) == rest
                &&& match r {
                    Ok(Some(f)) => expected == Ok::<Option<FrameModel>, FrameError>(Some(f@)),
                    Ok(None) => expected == Ok::<Option<FrameModel>, FrameError>(None),
                    Err(e) => expected == Err::<Option<FrameModel>, FrameError>(e),
                }
            }),
    {
        loop
            invariant
                *self == *old(self),
                decoded(self.max_frame_size, buffered(*old(buf))) == decoded(
                    self.max_frame_size,
                    buffered(*buf),
                ),
            decreases buffered(*buf).len(),
        {
            match self.decode_any(buf) {
                Ok(Some(Decoded::Frame(frame))) => return Ok(Some(frame)),
                Ok(Some(Decoded::Ignored { .. })) => {},
                Ok(None) => return Ok(None),
                Err(e) => return Err(e),
            }
        }
    }

    /// Serializes `frame` onto `out`.
    pub fn encode(&mut self, frame: &Frame, out: &mut BytesMut) -> (r: Result<(), FrameError>)
        ensures
            *final(self) == *old(self),
            match r {
                Ok(()) => encoded(frame@) is Ok && buffered(*final(out)) == buffered(*old(out))
                    + encoded(frame@)->Ok_0,
                Err(e) => encoded(frame@) == Err::<Seq<u8>, FrameError>(e) && buffered(*final(out))
                    == buffered(*old(out)),
            },
    {
        frame.write(out)
    }
}

// ---------------------------------------------------------------------------
// Laws
// ---------------------------------------------------------------------------

/// A parameter list takes six octets per parameter, and each can be read back
/// where it was written.
pub proof fn lemma_param_octets(params: Seq<(u16, u32)>)
    ensures
        param_octets(params).len() == 6 * params.len(),
        forall|i: int|
            0 <= i < params.len() ==> be16_at(param_octets(params), 6 * i) == (#[trigger] params[i]).0
                && be32_at(param_octets(params), 6 * i + 2) == params[i].1,
    decreases params.len(),
{
    if params.len() > 0 {
        let init = params.drop_last();
        lemma_param_octets(init);
        assert forall|i: int| 0 <= i < params.len() implies be16_at(param_octets(params), 6 * i)
            == (#[trigger] params[i]).0 && be32_at(param_octets(params), 6 * i + 2)
            == params[i].1 by {
            if i < init.len() {
                assert(params[i] == init[i]);
            }
        }
    }
}

/// The three parts of a GOAWAY payload can be read back where they were
/// written.
proof fn lemma_go_away_payload(last: u32, code: ErrorCode, debug: Seq<u8>)
    requires
        last < 0x8000_0000,
    ensures
        ({
            let p = be32(low31(last)) + be32(code.value()) + debug;
            &&& p.len() == 8 + debug.len()
            &&& be32_at(p, 0) == last
            &&& be32_at(p, 4) == code.value()
            &&& ErrorCode::from_value(code.value()) == code
            &&& p.skip(8) == debug
        }),
{
    let p = be32(low31(last)) + be32(code.value()) + debug;
    ErrorCode::wire_round_trip(code);
    be32_round_trip(last);
    be32_round_trip(code.value());
    let a = be32(last);
    let b = be32(code.value());
    assert(p[0] == a[0] && p[1] == a[1] && p[2] == a[2] && p[3] == a[3]);
    assert(p[4] == b[0] && p[5] == b[1] && p[6] == b[2] && p[7] == b[3]);
    assert(p.skip(8) =~= debug);
}

/// Interpreting the parts a valid frame is written as gives the frame back.
proof fn lemma_parts(f: FrameModel)
    requires
        f.valid(),
    ensures
        frame_of(f.kind(), f.flags(), f.stream(), f.payload()) == Ok::<
            Option<FrameModel>,
            FrameError,
        >(Some(f)),
{
    reveal(frame_of);
    match f {
        FrameModel::Data { end_stream, .. } => {
            lemma_flag_bytes(end_stream, false);
        },
        FrameModel::Headers { end_stream, end_headers, .. } => {
            lemma_flag_bytes(end_stream, end_headers);
        },
        FrameModel::Settings { ack, params } => {
            lemma_flag_bytes(ack, false);
            lemma_param_octets(params);
            assert(params_of(param_octets(params)) =~= params);
        },
        FrameModel::WindowUpdate { increment, .. } => {
            be32_round_trip(low31(increment));
        },
        FrameModel::RstStream { error_code, .. } => {
            ErrorCode::wire_round_trip(error_code);
            be32_round_trip(error_code.value());
        },
        FrameModel::Ping { ack, .. } => {
            lemma_flag_bytes(ack, false);
        },
        FrameModel::GoAway { last_stream_id, error_code, debug_data } => {
            lemma_go_away_payload(last_stream_id, error_code, debug_data);
        },
        FrameModel::Continuation { end_headers, .. } => {
            lemma_flag_bytes(false, end_headers);
        },
    }
}

/// A header can be read back where it was written.
pub proof fn lemma_header_octets(len: u32, kind: FrameType, flags: u8, id: u32, tail: Seq<u8>)
    requires
        len <= MAX_ALLOWED_FRAME_SIZE,
        id < 0x8000_0000,
    ensures
        ({
            let s = header_octets(len, kind, flags, id) + tail;
            &&& header_octets(len, kind, flags, id).len() == 9
            &&& header_length(s) == len
            &&& s[3] == kind.code()
            &&& s[4] == flags
            &&& header_stream(s) == id
            &&& s.skip(9) == tail
        }),
{
    let h = header_octets(len, kind, flags, id);
    let s = h + tail;
    let b = be32(low31(id));
    be32_round_trip(low31(id));
    assert(h[5] == b[0] && h[6] == b[1] && h[7] == b[2] && h[8] == b[3]);
    assert(s[0] == h[0] && s[1] == h[1] && s[2] == h[2] && s[3] == h[3] && s[4] == h[4] && s[5]
        == h[5] && s[6] == h[6] && s[7] == h[7] && s[8] == h[8]);
    assert(s.skip(9) =~= tail);
}

/// Decoding what was encoded gives the frame back and leaves exactly what
/// followed it, for every valid frame that fits the receiver's limit.
pub proof fn encode_then_decode_is_identity(max: u32, f: FrameModel, rest: Seq<u8>)
    requires
        f.valid(),
        encoded(f) is Ok,
        f.payload().len() <= max,
    ensures
        taken(max, encoded(f)->Ok_0 + rest) == (
            Ok::<Option<DecodedModel>, FrameError>(Some(DecodedModel::Frame(f))),
            rest,
        ),
        decoded(max, encoded(f)->Ok_0 + rest) == (
            Ok::<Option<FrameModel>, FrameError>(Some(f)),
            rest,
        ),
{
    lemma_parts(f);
    let payload = f.payload();
    let len = payload.len() as u32;
    let (kind, flags, id) = (f.kind(), f.flags(), f.stream());
    let s = encoded(f)->Ok_0 + rest;
    assert(id < 0x8000_0000);
    assert(FrameType::of(kind.code()) == kind);
    lemma_header_octets(len, kind, flags, id, payload + rest);
    assert(s =~= header_octets(len, kind, flags, id) + (payload + rest));
    assert(s.subrange(9, 9 + len) =~= payload);
    assert(s.skip(9 + len as int) =~= rest);
}

/// A frame that has not arrived in full decodes to nothing and consumes
/// nothing.
pub proof fn a_partial_frame_consumes_nothing(max: u32, f: FrameModel, k: nat)
    requires
        f.valid(),
        encoded(f) is Ok,
        f.payload().len() <= max,
        k < encoded(f)->Ok_0.len(),
    ensures
        decoded(max, encoded(f)->Ok_0.take(k as int)) == (
            Ok::<Option<FrameModel>, FrameError>(None),
            encoded(f)->Ok_0.take(k as int),
        ),
{
    let b = encoded(f)->Ok_0;
    let s = b.take(k as int);
    if k >= 9 {
        let len = f.payload().len() as u32;
        lemma_header_octets(len, f.kind(), f.flags(), f.stream(), f.payload());
        assert(s[0] == b[0] && s[1] == b[1] && s[2] == b[2]);
        assert(header_length(s) == len);
    }
}

/// What one step takes off the front does not depend on what arrives later.
pub proof fn lemma_taken_extends(max: u32, s: Seq<u8>, more: Seq<u8>)
    ensures
        !(taken(max, s).0 == Ok::<Option<DecodedModel>, FrameError>(None)) ==> taken(max, s + more)
            == (taken(max, s).0, taken(max, s).1 + more),
        taken(max, s).0 == Ok::<Option<DecodedModel>, FrameError>(None) ==> taken(max, s).1 == s,
{
    if s.len() >= 9 {
        let t = s + more;
        assert(t[0] == s[0] && t[1] == s[1] && t[2] == s[2] && t[3] == s[3] && t[4] == s[4] && t[5]
            == s[5] && t[6] == s[6] && t[7] == s[7] && t[8] == s[8]);
        let total = 9 + header_length(s);
        if s.len() >= total {
            assert(t.subrange(9, total) =~= s.subrange(9, total));
            assert(t.skip(total) =~= s.skip(total) + more);
        }
    }
}

/// However the octets of a stream of frames are cut into reads, decoding never
/// mis-parses: a frame decoded early is the frame decoded with everything
/// present, and where more input was needed, decoding resumes from the octets
/// kept back as if it had seen the whole input at once.
pub proof fn decoding_is_independent_of_read_boundaries(max: u32, s: Seq<u8>, more: Seq<u8>)
    ensures
        decoded(max, s).0 == Ok::<Option<FrameModel>, FrameError>(None) ==> decoded(max, s + more)
            == decoded(max, decoded(max, s).1 + more),
        !(decoded(max, s).0 == Ok::<Option<FrameModel>, FrameError>(None)) ==> decoded(
            max,
            s + more,
        ) == (decoded(max, s).0, decoded(max, s).1 + more),
    decreases s.len(),
{
    lemma_taken_extends(max, s, more);
    let (r, rest) = taken(max, s);
    if let Ok(Some(DecodedModel::Ignored { .. })) = r {
        if rest.len() < s.len() {
            decoding_is_independent_of_read_boundaries(max, rest, more);
        }
    }
}

/// The octets of several frames back to back.
pub open spec fn stream_octets(frames: Seq<FrameModel>) -> Seq<u8>
    decreases frames.len(),
{
    if frames.len() == 0 {
        Seq::empty()
    } else {
        encoded(frames[0])->Ok_0 + stream_octets(frames.drop_first())
    }
}

/// The first `n` frames of a buffer, in order, and what stays behind them.
pub open spec fn first_frames(max: u32, s: Seq<u8>, n: nat) -> (Seq<FrameModel>, Seq<u8>)
    decreases n,
{
    if n == 0 {
        (Seq::empty(), s)
    } else {
        match decoded(max, s) {
            (Ok(Some(f)), rest) => {
                let (fs, last) = first_frames(max, rest, (n - 1) as nat);
                (seq![f] + fs, last)
            },
            (_, rest) => (Seq::empty(), rest),
        }
    }
}

/// A stream of frames decodes to those frames, in order.
pub proof fn frames_decode_in_order(max: u32, frames: Seq<FrameModel>, rest: Seq<u8>)
    requires
        forall|i: int|
            0 <= i < frames.len() ==> (#[trigger] frames[i]).valid() && encoded(frames[i]) is Ok
                && frames[i].payload().len() <= max,
    ensures
        first_frames(max, stream_octets(frames) + rest, frames.len()) == (frames, rest),
    decreases frames.len(),
{
    if frames.len() == 0 {
        assert(stream_octets(frames) + rest =~= rest);
    } else {
        let tail = frames.drop_first();
        assert forall|i: int| 0 <= i < tail.len() implies (#[trigger] tail[i]).valid() && encoded(
            tail[i],
        ) is Ok && tail[i].payload().len() <= max by {
            assert(tail[i] == frames[i + 1]);
        }
        assert(frames[0].valid());
        frames_decode_in_order(max, tail, rest);
        encode_then_decode_is_identity(max, frames[0], stream_octets(tail) + rest);
        assert(stream_octets(frames) + rest =~= encoded(frames[0])->Ok_0 + (stream_octets(tail)
            + rest));
        assert(seq![frames[0]] + tail =~= frames);
    }
}

/// A 32-bit integer written back where it was read gives its octets.
proof fn lemma_be32_reread(s: Seq<u8>, at: int)
    requires
        0 <= at <= s.len() - 4,
    ensures
        0 <= be32_at(s, at) <= u32::MAX,
        be32(be32_at(s, at) as u32) == s.subrange(at, at + 4),
{
    let (a, b, c, d) = (s[at] as int, s[at + 1] as int, s[at + 2] as int, s[at + 3] as int);
    let n = be32_at(s, at);
    assert(n == a * 0x100_0000 + b * 0x1_0000 + c * 256 + d);
    assert(n / 0x100_0000 == a);
    assert(n / 0x1_0000 == a * 256 + b);
    assert(n / 256 == a * 0x1_0000 + b * 256 + c);
    assert(be32(n as u32) =~= s.subrange(at, at + 4));
}

proof fn lemma_be16_reread(s: Seq<u8>, at: int)
    requires
        0 <= at <= s.len() - 2,
    ensures
        0 <= be16_at(s, at) <= u16::MAX,
        be16(be16_at(s, at) as u16) == s.subrange(at, at + 2),
{
    assert(be16(be16_at(s, at) as u16) =~= s.subrange(at, at + 2));
}

/// A parameter list written back gives the payload it was read from.
proof fn lemma_params_reread(payload: Seq<u8>, k: int)
    requires
        payload.len() % 6 == 0,
        0 <= k <= payload.len() / 6,
    ensures
        param_octets(params_of(payload).take(k)) == payload.take(6 * k),
    decreases k,
{
    if k == 0 {
        assert(params_of(payload).take(0) =~= Seq::empty());
        assert(payload.take(0) =~= Seq::empty());
    } else {
        lemma_params_reread(payload, k - 1);
        let now = params_of(payload).take(k);
        assert(now.drop_last() =~= params_of(payload).take(k - 1));
        lemma_be16_reread(payload, 6 * (k - 1));
        lemma_be32_reread(payload, 6 * (k - 1) + 2);
        assert(payload.take(6 * k) =~= payload.take(6 * (k - 1)) + payload.subrange(
            6 * (k - 1),
            6 * (k - 1) + 2,
        ) + payload.subrange(6 * (k - 1) + 2, 6 * (k - 1) + 6));
    }
}

/// Whether an error code is one that has a name.
pub open spec fn named_code(v: int) -> bool {
    exists|c: ErrorCode| c.value() == v
}

/// A frame written without anything that reading drops: no padding, priority or
/// undefined flags, no reserved bits, and no error code without a name.
pub open spec fn canonical(s: Seq<u8>) -> bool {
    let payload = s.subrange(FRAME_HEADER_LEN as int, FRAME_HEADER_LEN + header_length(s));
    let flags = s[4];
    &&& be32_at(s, 5) < 0x8000_0000
    &&& match FrameType::of(s[3]) {
        FrameType::Data => flags == 0 || flags == END_STREAM,
        FrameType::Headers => flags == 0 || flags == END_STREAM || flags == END_HEADERS || flags
            == 5,
        FrameType::Settings => flags == 0 || flags == ACK,
        FrameType::Ping => flags == 0 || flags == ACK,
        FrameType::Continuation => flags == 0 || flags == END_HEADERS,
        FrameType::RstStream => flags == 0 && named_code(be32_at(payload, 0)),
        FrameType::GoAway => flags == 0 && be32_at(payload, 0) < 0x8000_0000 && named_code(
            be32_at(payload, 4),
        ),
        FrameType::WindowUpdate => flags == 0 && be32_at(payload, 0) < 0x8000_0000,
        FrameType::Unknown(_) => false,
    }
}

/// The parts of a canonical frame are the parts it would be written with.
proof fn lemma_canonical_parts(s: Seq<u8>, f: FrameModel)
    requires
        s.len() >= FRAME_HEADER_LEN + header_length(s),
        canonical(s),
        frame_of(
            FrameType::of(s[3]),
            s[4],
            header_stream(s),
            s.subrange(FRAME_HEADER_LEN as int, FRAME_HEADER_LEN + header_length(s)),
        ) == Ok::<Option<FrameModel>, FrameError>(Some(f)),
    ensures
        f.kind() == FrameType::of(s[3]),
        f.flags() == s[4],
        f.stream() == header_stream(s),
        f.payload() == s.subrange(FRAME_HEADER_LEN as int, FRAME_HEADER_LEN + header_length(s)),
{
    reveal(frame_of);
    let payload = s.subrange(FRAME_HEADER_LEN as int, FRAME_HEADER_LEN + header_length(s));
    lemma_flag_bytes(false, false);
    lemma_flag_bytes(false, true);
    lemma_flag_bytes(true, false);
    lemma_flag_bytes(true, true);
    assert(0u8 | 1 == 1 && 0u8 | 4 == 4 && 1u8 | 4 == 5) by (bit_vector);
    match FrameType::of(s[3]) {
        FrameType::Settings => {
            if has_flags(s[4], ACK) {
                assert(params_of(payload) =~= Seq::empty());
                assert(payload =~= Seq::empty());
            } else {
                let n = payload.len() as int / 6;
                lemma_params_reread(payload, n);
                assert(params_of(payload).take(n) =~= params_of(payload));
                assert(payload.take(6 * n) =~= payload);
            }
        },
        FrameType::RstStream => {
            lemma_be32_reread(payload, 0);
            assert(payload.subrange(0, 4) =~= payload);
        },
        FrameType::WindowUpdate => {
            lemma_be32_reread(payload, 0);
            assert(payload.subrange(0, 4) =~= payload);
        },
        FrameType::GoAway => {
            lemma_be32_reread(payload, 0);
            lemma_be32_reread(payload, 4);
            assert(payload.subrange(0, 4) + payload.subrange(4, 8) + payload.skip(8)
                =~= payload);
        },
        _ => {},
    }
}

/// Encoding what was decoded gives back the octets it was decoded from, for
/// every canonical frame.
pub proof fn decode_then_encode_is_identity(max: u32, s: Seq<u8>, f: FrameModel)
    requires
        max <= MAX_ALLOWED_FRAME_SIZE,
        taken(max, s).0 == Ok::<Option<DecodedModel>, FrameError>(Some(DecodedModel::Frame(f))),
        canonical(s),
    ensures
        encoded(f) is Ok,
        encoded(f)->Ok_0 + taken(max, s).1 == s,
{
    let total = FRAME_HEADER_LEN + header_length(s);
    let payload = s.subrange(FRAME_HEADER_LEN as int, total);
    lemma_canonical_parts(s, f);
    lemma_be32_reread(s, 5);
    let len = payload.len() as u32;
    let header = header_octets(len, f.kind(), f.flags(), f.stream());
    assert(f.kind().code() == s[3]);
    assert(low31(header_stream(s)) == be32_at(s, 5));
    let (a, b, c) = (s[0] as int, s[1] as int, s[2] as int);
    assert(len == a * 0x1_0000 + b * 256 + c);
    assert(len as int / 0x1_0000 == a);
    assert(len as int / 256 == a * 256 + b);
    assert(header =~= s.take(9));
    assert(header + payload + s.skip(total) =~= s);
}

/// Where everything lies on the wire: three octets of length, the type, the
/// flags, four octets of stream id, and the payload.
pub proof fn frames_lie_on_the_wire_in_network_order(f: FrameModel)
    requires
        f.valid(),
        encoded(f) is Ok,
    ensures
        ({
            let o = encoded(f)->Ok_0;
            let id = match f {
                FrameModel::Data { stream_id, .. } => stream_id,
                FrameModel::Headers { stream_id, .. } => stream_id,
                FrameModel::WindowUpdate { stream_id, .. } => stream_id,
                FrameModel::RstStream { stream_id, .. } => stream_id,
                FrameModel::Continuation { stream_id, .. } => stream_id,
                _ => 0,
            };
            &&& o.len() >= 9
            &&& o[0] * 65_536 + o[1] * 256 + o[2] == o.len() - 9
            &&& o[5] * 16_777_216 + o[6] * 65_536 + o[7] * 256 + o[8] == id
            &&& match f {
                FrameModel::Data { data, end_stream, .. } => o[3] == 0 && o[4] == (if end_stream {
                    1int
                } else {
                    0
                }) && o.skip(9) == data,
                FrameModel::Headers { block, end_stream, end_headers, .. } => o[3] == 1 && o[4]
                    == (if end_stream {
                    1int
                } else {
                    0
                }) + (if end_headers {
                    4int
                } else {
                    0
                }) && o.skip(9) == block,
                FrameModel::RstStream { error_code, .. } => o[3] == 3 && o[4] == 0 && o.len() == 13
                    && be32_at(o, 9) == error_code.value(),
                FrameModel::Settings { ack, params } => o[3] == 4 && o[4] == (if ack {
                    1int
                } else {
                    0
                }) && o.len() == 9 + 6 * params.len(),
                FrameModel::Ping { data, ack } => o[3] == 6 && o[4] == (if ack {
                    1int
                } else {
                    0
                }) && o.skip(9) == data,
                FrameModel::GoAway { last_stream_id, error_code, debug_data } => o[3] == 7 && o[4]
                    == 0 && be32_at(o, 9) == last_stream_id && be32_at(o, 13)
                    == error_code.value() && o.skip(17) == debug_data,
                FrameModel::WindowUpdate { increment, .. } => o[3] == 8 && o[4] == 0 && o.len()
                    == 13 && be32_at(o, 9) == increment,
                FrameModel::Continuation { block, end_headers, .. } => o[3] == 9 && o[4]
                    == (if end_headers {
                    4int
                } else {
                    0
                }) && o.skip(9) == block,
            }
        }),
{
    let o = encoded(f)->Ok_0;
    let payload = f.payload();
    lemma_header_octets(payload.len() as u32, f.kind(), f.flags(), f.stream(), payload);
    be32_round_trip(low31(f.stream()));
    let h = header_octets(payload.len() as u32, f.kind(), f.flags(), f.stream());
    let b = be32(low31(f.stream()));
    assert(o[5] == b[0] && o[6] == b[1] && o[7] == b[2] && o[8] == b[3]);
    assert(o.skip(9) =~= payload);
    assert(0u8 | 1u8 == 1u8 && 0u8 | 4u8 == 4u8 && 1u8 | 4u8 == 5u8) by (bit_vector);
    assert forall|k: int| 0 <= k < payload.len() implies o[9 + k] == #[trigger] payload[k] by {
        assert(o.skip(9)[k] == o[9 + k]);
    }
    match f {
        FrameModel::Settings { params, .. } => {
            lemma_param_octets(params);
        },
        FrameModel::WindowUpdate { increment, .. } => {
            be32_round_trip(low31(increment));
            assert(o[9] == payload[0] && o[10] == payload[1] && o[11] == payload[2] && o[12]
                == payload[3]);
        },
        FrameModel::RstStream { error_code, .. } => {
            be32_round_trip(error_code.value());
            assert(o[9] == payload[0] && o[10] == payload[1] && o[11] == payload[2] && o[12]
                == payload[3]);
        },
        FrameModel::GoAway { last_stream_id, error_code, debug_data } => {
            be32_round_trip(low31(last_stream_id));
            be32_round_trip(error_code.value());
            assert(o[9] == payload[0] && o[10] == payload[1] && o[11] == payload[2] && o[12]
                == payload[3]);
            assert(o[13] == payload[4] && o[14] == payload[5] && o[15] == payload[6] && o[16]
                == payload[7]);
            assert(o.skip(17) =~= debug_data);
        },
        _ => {},
    }
}

/// Padding is taken off, whatever it holds, and a priority field with it; padding
/// that leaves no room for itself is an error.
pub proof fn padding_is_taken_off(flags: u8, id: u32, body: Seq<u8>, padding: Seq<u8>)
    requires
        id > 0,
        flags & 0x8 == 0x8,
        padding.len() <= 255,
    ensures
        ({
            let payload = seq![padding.len() as u8] + body + padding;
            &&& frame_of(FrameType::Data, flags, id, payload) == Ok::<
                Option<FrameModel>,
                FrameError,
            >(
                Some(
                    FrameModel::Data { stream_id: id, data: body, end_stream: flags & 0x1 == 0x1 },
                ),
            )
            &&& flags & 0x20 != 0x20 ==> frame_of(FrameType::Headers, flags, id, payload) == Ok::<
                Option<FrameModel>,
                FrameError,
            >(
                Some(
                    FrameModel::Headers {
                        stream_id: id,
                        block: body,
                        end_stream: flags & 0x1 == 0x1,
                        end_headers: flags & 0x4 == 0x4,
                    },
                ),
            )
            &&& flags & 0x20 == 0x20 && body.len() >= 5 ==> frame_of(
                FrameType::Headers,
                flags,
                id,
                payload,
            ) == Ok::<Option<FrameModel>, FrameError>(
                Some(
                    FrameModel::Headers {
                        stream_id: id,
                        block: body.skip(5),
                        end_stream: flags & 0x1 == 0x1,
                        end_headers: flags & 0x4 == 0x4,
                    },
                ),
            )
        }),
        body.len() > 0 && body[0] >= body.len() ==> frame_of(FrameType::Data, flags, id, body)
            == Err::<Option<FrameModel>, FrameError>(
            FrameError::PaddingOverflow { kind: FrameType::Data },
        ),
{
    let payload = seq![padding.len() as u8] + body + padding;
    reveal(frame_of);
    reveal(ping_of);
    reveal(continuation_of);
    assert(payload.subrange(1, payload.len() - payload[0]) =~= body);
}

/// Each kind of frame has its place and its length: on a stream, on the
/// connection or on either, and as long as what it carries. A wrong length is a
/// frame size error, a wrong place a protocol error; what is of no known kind is
/// passed over, and a push is never accepted.
pub proof fn each_frame_has_its_place_and_length(
    kind: FrameType,
    flags: u8,
    id: u32,
    payload: Seq<u8>,
)
    ensures
        ({
            let r = frame_of(kind, flags, id, payload);
            let ack = flags & 0x1 == 0x1;
            let place = match kind {
                FrameType::Settings | FrameType::Ping | FrameType::GoAway => id == 0,
                FrameType::WindowUpdate | FrameType::Unknown(_) => true,
                _ => id != 0,
            };
            let length = match kind {
                FrameType::RstStream | FrameType::WindowUpdate => payload.len() == 4,
                FrameType::Ping => payload.len() == 8,
                FrameType::GoAway => payload.len() >= 8,
                FrameType::Settings => payload.len() % 6 == 0 && (ack ==> payload.len() == 0),
                _ => true,
            };
            &&& !place ==> r is Err && r->Err_0.scope() == ErrorCode::ProtocolError
            &&& place && !length ==> r is Err && r->Err_0.scope() == ErrorCode::FrameSizeError
            &&& place && length && !(kind is Unknown) && flags & 0x8 != 0x8 && flags & 0x20 != 0x20
                ==> (r matches Ok(Some(f)) && f.kind() == kind && f.stream() == id)
            &&& kind is Unknown ==> r == (if kind == FrameType::Unknown(5) {
                Err::<Option<FrameModel>, FrameError>(FrameError::UnexpectedPushPromise)
            } else {
                Ok::<Option<FrameModel>, FrameError>(None)
            })
        }),
{
    reveal(frame_of);
    reveal(ping_of);
    reveal(continuation_of);
}

} // verus!
