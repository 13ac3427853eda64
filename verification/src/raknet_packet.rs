//! RakNet packet types, serialization, and deserialization.
//!
//! Covers offline messages (unconnected ping/pong, open connection
//! request/reply), online datagrams (frame sets), ACK/NACK, and
//! disconnection.

use vstd::prelude::*;
use vstd::string::StringSliceAdditionalSpecFns;
use crate::bytes::{be_bytes, le_bytes, be_value, le_value, push_be, push_le, append_bytes, read_be, read_le};

verus! {

/// The RakNet offline message data ID ("magic").
pub const MAGIC: [u8; 16] = [
    0x00, 0xff, 0xff, 0x00, 0xfe, 0xfe, 0xfe, 0xfe, 0xfd, 0xfd, 0xfd, 0xfd, 0x12, 0x34, 0x56, 0x78,
];

/// The magic bytes as a sequence.
pub open spec fn magic() -> Seq<u8> {
    seq![0x00u8, 0xff, 0xff, 0x00, 0xfe, 0xfe, 0xfe, 0xfe, 0xfd, 0xfd, 0xfd, 0xfd, 0x12, 0x34, 0x56, 0x78]
}

/// Packet IDs used by RakNet.
pub const CONNECTED_PING: u8 = 0x00;
pub const UNCONNECTED_PING: u8 = 0x01;
pub const CONNECTED_PONG: u8 = 0x03;
pub const DISCONNECTION_NOTIFICATION: u8 = 0x04;
pub const OPEN_CONNECTION_REQUEST_1: u8 = 0x05;
pub const OPEN_CONNECTION_REPLY_1: u8 = 0x06;
pub const OPEN_CONNECTION_REQUEST_2: u8 = 0x07;
pub const OPEN_CONNECTION_REPLY_2: u8 = 0x08;
pub const DISCONNECTION: u8 = 0x15;
pub const UNCONNECTED_PONG: u8 = 0x1c;
/// Frame set (datagram) — bits 4-7 carry flags.
pub const FRAME_SET_START: u8 = 0x80;
pub const FRAME_SET_END: u8 = 0x8f;

/// Maximum MTU we accept. Packets claiming larger are clamped.
pub const MAX_MTU: u16 = 1492;

/// Reliability types for framed data.
#[derive(Debug, Clone, Copy, PartialEq, Eq, Structural)]
pub enum Reliability {
    Unreliable,
    UnreliableSequenced,
    Reliable,
    ReliableOrdered,
    ReliableSequenced,
}

/// The reliability with the given three-bit code, if any.
pub open spec fn reliability_of(raw: nat) -> Option<Reliability> {
    if raw == 0 {
        Some(Reliability::Unreliable)
    } else if raw == 1 {
        Some(Reliability::UnreliableSequenced)
    } else if raw == 2 {
        Some(Reliability::Reliable)
    } else if raw == 3 {
        Some(Reliability::ReliableOrdered)
    } else if raw == 4 {
        Some(Reliability::ReliableSequenced)
    } else {
        None
    }
}

impl Reliability {
    /// The wire code of the reliability.
    pub open spec fn spec_raw(self) -> u8 {
        match self {
            Reliability::Unreliable => 0,
            Reliability::UnreliableSequenced => 1,
            Reliability::Reliable => 2,
            Reliability::ReliableOrdered => 3,
            Reliability::ReliableSequenced => 4,
        }
    }

    /// The wire code of the reliability.
    #[verifier::when_used_as_spec(spec_raw)]
    pub fn raw(self) -> (r: u8)
        ensures
            r == self.spec_raw(),
    {
        match self {
            Reliability::Unreliable => 0,
            Reliability::UnreliableSequenced => 1,
            Reliability::Reliable => 2,
            Reliability::ReliableOrdered => 3,
            Reliability::ReliableSequenced => 4,
        }
    }

    /// The reliability coded by the low three bits of `raw`.
    pub fn from_raw(raw: u8) -> (r: Option<Self>)
        ensures
            r == reliability_of((raw % 8) as nat),
    {
        let low = raw & 0x07;
        assert(low == raw % 8) by (bit_vector)
            requires low == raw & 0x07;
        match low {
            0 => Some(Self::Unreliable),
            1 => Some(Self::UnreliableSequenced),
            2 => Some(Self::Reliable),
            3 => Some(Self::ReliableOrdered),
            4 => Some(Self::ReliableSequenced),
            _ => None,
        }
    }

    pub open spec fn spec_is_reliable(self) -> bool {
        self == Reliability::Reliable || self == Reliability::ReliableOrdered || self
            == Reliability::ReliableSequenced
    }

    #[verifier::when_used_as_spec(spec_is_reliable)]
    pub fn is_reliable(self) -> (r: bool)
        ensures
            r == self.spec_is_reliable(),
    {
        match self {
            Self::Reliable | Self::ReliableOrdered | Self::ReliableSequenced => true,
            _ => false,
        }
    }

    pub open spec fn spec_is_sequenced(self) -> bool {
        self == Reliability::UnreliableSequenced || self == Reliability::ReliableSequenced
    }

    /// Whether frames of this reliability carry a sequence index.
    #[verifier::when_used_as_spec(spec_is_sequenced)]
    pub fn is_sequenced(self) -> (r: bool)
        ensures
            r == self.spec_is_sequenced(),
    {
        match self {
            Self::UnreliableSequenced | Self::ReliableSequenced => true,
            _ => false,
        }
    }

    pub open spec fn spec_is_ordered(self) -> bool {
        self == Reliability::ReliableOrdered || self == Reliability::ReliableSequenced
    }

    /// Whether frames of this reliability carry an order index and channel.
    #[verifier::when_used_as_spec(spec_is_ordered)]
    pub fn is_ordered(self) -> (r: bool)
        ensures
            r == self.spec_is_ordered(),
    {
        match self {
            Self::ReliableOrdered | Self::ReliableSequenced => true,
            _ => false,
        }
    }
}

/// Frame type implied by the leading byte of a datagram.
#[derive(Debug, Clone, Copy, PartialEq, Eq, Structural)]
pub enum FrameType {
    Ack,
    Nack,
    FrameSet,
}

/// The frame type that a leading byte announces.
pub open spec fn frame_type_of(byte: u8) -> Option<FrameType> {
    if byte / 32 == 6 {
        Some(FrameType::Ack)
    } else if byte / 32 == 5 {
        Some(FrameType::Nack)
    } else if 0x80 <= byte <= 0x8f {
        Some(FrameType::FrameSet)
    } else {
        None
    }
}

impl FrameType {
    pub fn from_byte(byte: u8) -> (r: Option<Self>)
        ensures
            r == frame_type_of(byte),
    {
        assert((byte & 0xe0 == 0xc0) == (byte / 32 == 6)) by (bit_vector);
        assert((byte & 0xe0 == 0xa0) == (byte / 32 == 5)) by (bit_vector);
        if byte & 0xe0 == 0xc0 {
            Some(Self::Ack)
        } else if byte & 0xe0 == 0xa0 {
            Some(Self::Nack)
        } else if FRAME_SET_START <= byte && byte <= FRAME_SET_END {
            Some(Self::FrameSet)
        } else {
            None
        }
    }
}

/// Errors that can occur during packet read/write.
#[derive(Debug)]
pub enum PacketError {
    BufferTooShort,
    UnknownPacketId { id: u8 },
    InvalidMagic,
    InvalidIpVersion(u8),
    InvalidReliability(u8),
    Other(String),
}

/// A single frame within a datagram.
#[derive(Debug, Clone)]
pub struct Frame {
    pub reliability: Reliability,
    pub is_split: bool,
    pub reliable_index: Option<u32>,
    pub sequence_index: Option<u32>,
    pub order_index: Option<u32>,
    pub order_channel: u8,
    pub split_count: Option<u32>,
    pub split_id: Option<u16>,
    pub split_index: Option<u32>,
    pub body: Vec<u8>,
}

/// A frame with its body as a sequence of bytes.
pub struct FrameView {
    pub reliability: Reliability,
    pub is_split: bool,
    pub reliable_index: Option<u32>,
    pub sequence_index: Option<u32>,
    pub order_index: Option<u32>,
    pub order_channel: u8,
    pub split_count: Option<u32>,
    pub split_id: Option<u16>,
    pub split_index: Option<u32>,
    pub body: Seq<u8>,
}

impl View for Frame {
    type V = FrameView;

    open spec fn view(&self) -> FrameView {
        FrameView {
            reliability: self.reliability,
            is_split: self.is_split,
            reliable_index: self.reliable_index,
            sequence_index: self.sequence_index,
            order_index: self.order_index,
            order_channel: self.order_channel,
            split_count: self.split_count,
            split_id: self.split_id,
            split_index: self.split_index,
            body: self.body@,
        }
    }
}

pub open spec fn opt_or_zero<T>(o: Option<T>, zero: T) -> T {
    match o {
        Some(v) => v,
        None => zero,
    }
}

/// The first byte of a frame: reliability code and split flag.
pub open spec fn frame_flags(f: FrameView) -> u8 {
    (f.reliability.spec_raw() + if f.is_split { 16nat } else { 0nat }) as u8
}

/// The reliable index, when the reliability calls for one.
pub open spec fn frame_reliable_part(f: FrameView) -> Seq<u8> {
    if f.reliability.spec_is_reliable() {
        le_bytes(opt_or_zero(f.reliable_index, 0u32) as nat, 3)
    } else {
        Seq::empty()
    }
}

/// The sequence index, when the reliability calls for one.
pub open spec fn frame_sequence_part(f: FrameView) -> Seq<u8> {
    if f.reliability.spec_is_sequenced() {
        le_bytes(opt_or_zero(f.sequence_index, 0u32) as nat, 3)
    } else {
        Seq::empty()
    }
}

/// The order index and channel, when the reliability calls for them.
pub open spec fn frame_order_part(f: FrameView) -> Seq<u8> {
    if f.reliability.spec_is_ordered() {
        le_bytes(opt_or_zero(f.order_index, 0u32) as nat, 3).push(f.order_channel)
    } else {
        Seq::empty()
    }
}

/// Split count, split id and split index, for a split frame.
pub open spec fn frame_split_part(f: FrameView) -> Seq<u8> {
    if f.is_split {
        be_bytes(opt_or_zero(f.split_count, 0u32) as nat, 4) + be_bytes(
            opt_or_zero(f.split_id, 0u16) as nat,
            2,
        ) + be_bytes(opt_or_zero(f.split_index, 0u32) as nat, 4)
    } else {
        Seq::empty()
    }
}

/// The bytes of a frame on the wire: flags, body length in bits (16 bits,
/// big-endian), the parts above, then the body.
pub open spec fn frame_encoding(f: FrameView) -> Seq<u8> {
    seq![frame_flags(f)] + be_bytes(f.body.len() * 8, 2) + frame_reliable_part(f)
        + frame_sequence_part(f) + frame_order_part(f) + frame_split_part(f) + f.body
}

/// Bytes of the frame header that precede the body.
pub open spec fn frame_header_len(r: Reliability, split: bool) -> nat {
    3 + (if r.spec_is_reliable() { 3nat } else { 0nat })
        + (if r.spec_is_sequenced() { 3nat } else { 0nat })
        + (if r.spec_is_ordered() { 4nat } else { 0nat })
        + (if split { 10nat } else { 0nat })
}

/// The value of `n` big-endian bytes of `s` at `at`.
pub open spec fn be_at(s: Seq<u8>, at: int, n: int) -> nat {
    be_value(s.subrange(at, at + n))
}

/// The value of `n` little-endian bytes of `s` at `at`.
pub open spec fn le_at(s: Seq<u8>, at: int, n: int) -> nat {
    le_value(s.subrange(at, at + n))
}

/// Decoding one frame from the start of `s`: the frame and the number of
/// bytes it takes, or the error.
pub open spec fn decode_frame_spec(s: Seq<u8>) -> Result<(FrameView, nat), PacketError> {
    if s.len() < 1 {
        Err(PacketError::BufferTooShort)
    } else {
        let flags = s[0];
        match reliability_of((flags % 8) as nat) {
            None => Err(PacketError::InvalidReliability((flags % 8) as u8)),
            Some(r) => {
                if s.len() < 3 {
                    Err(PacketError::BufferTooShort)
                } else {
                    let split = (flags / 16) % 2 == 1;
                    let body_len = (be_at(s, 1, 2) + 7) / 8;
                    let hl = frame_header_len(r, split);
                    if s.len() < hl + body_len {
                        Err(PacketError::BufferTooShort)
                    } else {
                        let o1: int = 3;
                        let o2: int = o1 + if r.spec_is_reliable() { 3int } else { 0int };
                        let o3: int = o2 + if r.spec_is_sequenced() { 3int } else { 0int };
                        let o4: int = o3 + if r.spec_is_ordered() { 4int } else { 0int };
                        Ok((FrameView {
                            reliability: r,
                            is_split: split,
                            reliable_index: if r.spec_is_reliable() { Some(le_at(s, o1, 3) as u32) } else { None },
                            sequence_index: if r.spec_is_sequenced() { Some(le_at(s, o2, 3) as u32) } else { None },
                            order_index: if r.spec_is_ordered() { Some(le_at(s, o3, 3) as u32) } else { None },
                            order_channel: if r.spec_is_ordered() { s[o3 + 3] } else { 0 },
                            split_count: if split { Some(be_at(s, o4, 4) as u32) } else { None },
                            split_id: if split { Some(be_at(s, o4 + 4, 2) as u16) } else { None },
                            split_index: if split { Some(be_at(s, o4 + 6, 4) as u32) } else { None },
                            body: s.subrange(hl as int, (hl + body_len) as int),
                        }, hl + body_len))
                    }
                }
            },
        }
    }
}

// ── reading helpers ────────────────────────────────────────────────────

fn read_u8(buf: &[u8], pos: &mut usize) -> (r: Result<u8, PacketError>)
    ensures
        *old(pos) < buf@.len() ==> r == Ok::<u8, PacketError>(buf@[*old(pos) as int]) && *final(pos) == *old(pos) + 1,
        *old(pos) >= buf@.len() ==> r == Err::<u8, PacketError>(PacketError::BufferTooShort) && *final(pos) == *old(pos),
{
    if *pos >= buf.len() {
        return Err(PacketError::BufferTooShort);
    }
    let val = buf[*pos];
    *pos = *pos + 1;
    Ok(val)
}

fn read_u16_be(buf: &[u8], pos: &mut usize) -> (r: Result<u16, PacketError>)
    ensures
        *old(pos) + 2 <= buf@.len() ==> r == Ok::<u16, PacketError>(be_at(buf@, *old(pos) as int, 2) as u16) && *final(pos) == *old(pos) + 2,
        *old(pos) + 2 > buf@.len() ==> r == Err::<u16, PacketError>(PacketError::BufferTooShort) && *final(pos) == *old(pos),
{
    if *pos > buf.len() || buf.len() - *pos < 2 {
        return Err(PacketError::BufferTooShort);
    }
    let val = read_be(buf, *pos, 2) as u16;
    *pos = *pos + 2;
    Ok(val)
}

fn read_u24_le(buf: &[u8], pos: &mut usize) -> (r: Result<u32, PacketError>)
    ensures
        *old(pos) + 3 <= buf@.len() ==> r == Ok::<u32, PacketError>(le_at(buf@, *old(pos) as int, 3) as u32) && *final(pos) == *old(pos) + 3,
        *old(pos) + 3 > buf@.len() ==> r == Err::<u32, PacketError>(PacketError::BufferTooShort) && *final(pos) == *old(pos),
{
    if *pos > buf.len() || buf.len() - *pos < 3 {
        return Err(PacketError::BufferTooShort);
    }
    let val = read_le(buf, *pos, 3) as u32;
    *pos = *pos + 3;
    Ok(val)
}

fn read_u32_be(buf: &[u8], pos: &mut usize) -> (r: Result<u32, PacketError>)
    ensures
        *old(pos) + 4 <= buf@.len() ==> r == Ok::<u32, PacketError>(be_at(buf@, *old(pos) as int, 4) as u32) && *final(pos) == *old(pos) + 4,
        *old(pos) + 4 > buf@.len() ==> r == Err::<u32, PacketError>(PacketError::BufferTooShort) && *final(pos) == *old(pos),
{
    if *pos > buf.len() || buf.len() - *pos < 4 {
        return Err(PacketError::BufferTooShort);
    }
    let val = read_be(buf, *pos, 4) as u32;
    *pos = *pos + 4;
    Ok(val)
}

fn read_i64_be(buf: &[u8], pos: &mut usize) -> (r: Result<i64, PacketError>)
    ensures
        *old(pos) + 8 <= buf@.len() ==> r == Ok::<i64, PacketError>(be_at(buf@, *old(pos) as int, 8) as u64 as i64) && *final(pos) == *old(pos) + 8,
        *old(pos) + 8 > buf@.len() ==> r == Err::<i64, PacketError>(PacketError::BufferTooShort) && *final(pos) == *old(pos),
{
    if *pos > buf.len() || buf.len() - *pos < 8 {
        return Err(PacketError::BufferTooShort);
    }
    let val = read_be(buf, *pos, 8) as i64;
    *pos = *pos + 8;
    Ok(val)
}

// ── writing helpers ────────────────────────────────────────────────────

fn write_u8(buf: &mut Vec<u8>, val: u8)
    ensures
        final(buf)@ == old(buf)@.push(val),
{
    buf.push(val);
}

fn write_i64_be(buf: &mut Vec<u8>, val: i64)
    ensures
        final(buf)@ == old(buf)@ + be_bytes(val as u64 as nat, 8),
{
    push_be(buf, val as u64, 8);
}

fn write_u16_be(buf: &mut Vec<u8>, val: u16)
    ensures
        final(buf)@ == old(buf)@ + be_bytes(val as nat, 2),
{
    push_be(buf, val as u64, 2);
}

fn write_u32_be(buf: &mut Vec<u8>, val: u32)
    ensures
        final(buf)@ == old(buf)@ + be_bytes(val as nat, 4),
{
    push_be(buf, val as u64, 4);
}

fn write_u24_le(buf: &mut Vec<u8>, val: u32)
    ensures
        final(buf)@ == old(buf)@ + le_bytes(val as nat, 3),
{
    push_le(buf, val as u64, 3);
}

fn write_magic(buf: &mut Vec<u8>)
    ensures
        final(buf)@ == old(buf)@ + magic(),
{
    let m: [u8; 16] = MAGIC;
    append_bytes(buf, &m);
    assert(m@ =~= magic());
}


proof fn lemma_bits_len(len: nat)
    ensures
        be_bytes(len * 8, 2) == be_bytes((len % 8192) * 8, 2),
        (len % 8192) * 8 < 65536,
{
    crate::bytes::lemma_be_bytes_mod(len * 8, 2);
    crate::bytes::lemma_be_bytes_mod((len % 8192) * 8, 2);
    reveal_with_fuel(vstd::arithmetic::power::pow, 3);
    assert((len * 8) % 65536 == ((len % 8192) * 8) % 65536) by (nonlinear_arith);
    assert((len % 8192) * 8 < 65536) by (nonlinear_arith);
}

// ── frame encode ───────────────────────────────────────────────────────

/// Encode a frame: flags, body length in bits, the indices its
/// reliability calls for, the split header, then the body.
#[verifier::rlimit(80)]
pub fn encode_frame(frame: &Frame) -> (r: Vec<u8>)
    ensures
        r@ == frame_encoding(frame@),
{
    let mut buf = Vec::new();
    let raw = frame.reliability.raw();
    let mut flags = raw;
    if frame.is_split {
        flags = raw | 0x10;
        assert(flags == raw + 16) by (bit_vector)
            requires flags == raw | 0x10, raw < 8;
    }
    write_u8(&mut buf, flags);
    let len = frame.body.len();
    let body_bits = ((len % 8192) * 8) as u16;
    proof {
        lemma_bits_len(len as nat);
    }
    write_u16_be(&mut buf, body_bits);
    let ghost b1 = buf@;
    assert(b1 == seq![frame_flags(frame@)] + be_bytes(frame@.body.len() * 8, 2));
    if frame.reliability.is_reliable() {
        let v = match frame.reliable_index { Some(v) => v, None => 0 };
        write_u24_le(&mut buf, v);
    }
    let ghost b2 = buf@;
    assert(b2 == b1 + frame_reliable_part(frame@));
    if frame.reliability.is_sequenced() {
        let v = match frame.sequence_index { Some(v) => v, None => 0 };
        write_u24_le(&mut buf, v);
    }
    let ghost b3 = buf@;
    assert(b3 == b2 + frame_sequence_part(frame@));
    if frame.reliability.is_ordered() {
        let v = match frame.order_index { Some(v) => v, None => 0 };
        write_u24_le(&mut buf, v);
        write_u8(&mut buf, frame.order_channel);
    }
    let ghost b4 = buf@;
    assert(b4 == b3 + frame_order_part(frame@));
    if frame.is_split {
        let c = match frame.split_count { Some(v) => v, None => 0 };
        let i = match frame.split_id { Some(v) => v, None => 0 };
        let x = match frame.split_index { Some(v) => v, None => 0 };
        write_u32_be(&mut buf, c);
        write_u16_be(&mut buf, i);
        write_u32_be(&mut buf, x);
    }
    let ghost b5 = buf@;
    assert(b5 == b4 + frame_split_part(frame@));
    append_bytes(&mut buf, frame.body.as_slice());
    assert(buf@ =~= frame_encoding(frame@));
    buf
}

/// `r` is the result that `decode_frame_spec` gives for the bytes.
pub open spec fn frame_result_matches(r: Result<(Frame, usize), PacketError>, s: Seq<u8>) -> bool {
    match decode_frame_spec(s) {
        Ok((fv, n)) => r matches Ok((f, m)) && f@ == fv && m == n,
        Err(e) => r == Err::<(Frame, usize), PacketError>(e),
    }
}

// ── frame decode ───────────────────────────────────────────────────────

/// Decode a single frame from the buffer.
/// Returns the decoded frame and the number of bytes consumed.
pub fn decode_frame(buf: &[u8]) -> (r: Result<(Frame, usize), PacketError>)
    ensures
        frame_result_matches(r, buf@),
{
    let mut pos: usize = 0;
    let flags = read_u8(buf, &mut pos)?;
    let low = flags & 0x07;
    assert(low == flags % 8) by (bit_vector)
        requires low == flags & 0x07;
    let reliability = match Reliability::from_raw(low) {
        Some(r) => r,
        None => {
            return Err(PacketError::InvalidReliability(low));
        },
    };
    let is_split = (flags & 0x10) != 0;
    assert(((flags & 0x10) != 0) == ((flags / 16) % 2 == 1)) by (bit_vector);
    let length_bits = read_u16_be(buf, &mut pos)?;
    proof {
        crate::bytes::lemma_be_value_bytes(buf@.subrange(1, 3));
        reveal_with_fuel(vstd::arithmetic::power::pow, 3);
    }
    let body_len: usize = (length_bits as usize + 7) / 8;
    let hl: usize = 3 + (if reliability.is_reliable() { 3 } else { 0 })
        + (if reliability.is_sequenced() { 3 } else { 0 })
        + (if reliability.is_ordered() { 4 } else { 0 })
        + (if is_split { 10 } else { 0 });
    if buf.len() < hl + body_len {
        return Err(PacketError::BufferTooShort);
    }
    let reliable_index = if reliability.is_reliable() {
        Some(read_u24_le(buf, &mut pos)?)
    } else {
        None
    };
    let sequence_index = if reliability.is_sequenced() {
        Some(read_u24_le(buf, &mut pos)?)
    } else {
        None
    };
    let (order_index, order_channel) = if reliability.is_ordered() {
        let oi = read_u24_le(buf, &mut pos)?;
        let ch = read_u8(buf, &mut pos)?;
        (Some(oi), ch)
    } else {
        (None, 0)
    };
    let (split_count, split_id, split_index) = if is_split {
        let c = read_u32_be(buf, &mut pos)?;
        let i = read_u16_be(buf, &mut pos)?;
        let x = read_u32_be(buf, &mut pos)?;
        (Some(c), Some(i), Some(x))
    } else {
        (None, None, None)
    };
    assert(pos == hl);
    let body = vstd::slice::slice_to_vec(&buf[pos..pos + body_len]);
    Ok((
        Frame {
            reliability,
            is_split,
            reliable_index,
            sequence_index,
            order_index,
            order_channel,
            split_count,
            split_id,
            split_index,
            body,
        },
        pos + body_len,
    ))
}


/// A frame that decodes to itself: it carries exactly the indices its
/// reliability calls for, each within the width the wire gives it, and its
/// body length in bits fits 16 bits.
pub open spec fn frame_canonical(f: FrameView) -> bool {
    let r = f.reliability;
    &&& (f.reliable_index is Some) == r.spec_is_reliable()
    &&& (f.sequence_index is Some) == r.spec_is_sequenced()
    &&& (f.order_index is Some) == r.spec_is_ordered()
    &&& opt_or_zero(f.reliable_index, 0u32) < 0x100_0000
    &&& opt_or_zero(f.sequence_index, 0u32) < 0x100_0000
    &&& opt_or_zero(f.order_index, 0u32) < 0x100_0000
    &&& (!r.spec_is_ordered() ==> f.order_channel == 0)
    &&& (f.split_count is Some) == f.is_split
    &&& (f.split_id is Some) == f.is_split
    &&& (f.split_index is Some) == f.is_split
    &&& f.body.len() * 8 < 0x1_0000
}

proof fn lemma_le3(v: u32)
    requires
        v < 0x100_0000,
    ensures
        le_value(le_bytes(v as nat, 3)) == v,
        le_bytes(v as nat, 3).len() == 3,
{
    crate::bytes::lemma_le_roundtrip(v as nat, 3);
    crate::bytes::lemma_le_bytes_len(v as nat, 3);
    reveal_with_fuel(vstd::arithmetic::power::pow, 4);
    vstd::arithmetic::div_mod::lemma_small_mod(v as nat, 0x100_0000);
}

proof fn lemma_be_n(v: nat, n: nat)
    requires
        n <= 4,
        v < vstd::arithmetic::power::pow(256, n),
    ensures
        be_value(be_bytes(v, n)) == v,
        be_bytes(v, n).len() == n,
{
    crate::bytes::lemma_be_roundtrip(v, n);
    crate::bytes::lemma_be_bytes_len(v, n);
    vstd::arithmetic::div_mod::lemma_small_mod(v, vstd::arithmetic::power::pow(256, n) as nat);
}

proof fn lemma_pow256_small()
    ensures
        vstd::arithmetic::power::pow(256, 2) == 0x1_0000,
        vstd::arithmetic::power::pow(256, 4) == 0x1_0000_0000,
{
    reveal_with_fuel(vstd::arithmetic::power::pow, 5);
}

/// Decoding the bytes of a canonical frame gives the frame back and
/// consumes exactly its bytes, whatever follows.
#[verifier::rlimit(100)]
pub proof fn law_frame_roundtrip(f: FrameView, rest: Seq<u8>)
    requires
        frame_canonical(f),
    ensures
        decode_frame_spec(frame_encoding(f) + rest) == Ok::<(FrameView, nat), PacketError>(
            (f, frame_encoding(f).len()),
        ),
{
    let r = f.reliability;
    let e = frame_encoding(f);
    let s = e + rest;
    let len = f.body.len();
    lemma_pow256_small();
    lemma_be_n(len * 8, 2);
    let flags = frame_flags(f);
    assert(flags % 8 == r.spec_raw());
    assert((flags / 16) % 2 == 1 <==> f.is_split);
    let p0 = seq![flags] + be_bytes(len * 8, 2);
    let p1 = p0 + frame_reliable_part(f);
    let p2 = p1 + frame_sequence_part(f);
    let p3 = p2 + frame_order_part(f);
    let p4 = p3 + frame_split_part(f);
    assert(e == p4 + f.body);
    assert(s.subrange(1, 3) == be_bytes(len * 8, 2));
    assert((len * 8 + 7) / 8 == len);
    let o1: int = 3;
    let o2: int = o1 + if r.spec_is_reliable() { 3int } else { 0int };
    let o3: int = o2 + if r.spec_is_sequenced() { 3int } else { 0int };
    let o4: int = o3 + if r.spec_is_ordered() { 4int } else { 0int };
    let hl = frame_header_len(r, f.is_split);
    assert(p1.len() == o2) by {
        if r.spec_is_reliable() { lemma_le3(opt_or_zero(f.reliable_index, 0u32)); }
    }
    assert(p2.len() == o3) by {
        if r.spec_is_sequenced() { lemma_le3(opt_or_zero(f.sequence_index, 0u32)); }
    }
    assert(p3.len() == o4) by {
        if r.spec_is_ordered() { lemma_le3(opt_or_zero(f.order_index, 0u32)); }
    }
    if f.is_split {
        lemma_be_n(opt_or_zero(f.split_count, 0u32) as nat, 4);
        lemma_be_n(opt_or_zero(f.split_id, 0u16) as nat, 2);
        lemma_be_n(opt_or_zero(f.split_index, 0u32) as nat, 4);
    }
    assert(p4.len() == hl);
    if r.spec_is_reliable() {
        let v = opt_or_zero(f.reliable_index, 0u32);
        lemma_le3(v);
        assert(s.subrange(o1, o1 + 3) == le_bytes(v as nat, 3));
    }
    if r.spec_is_sequenced() {
        let v = opt_or_zero(f.sequence_index, 0u32);
        lemma_le3(v);
        assert(s.subrange(o2, o2 + 3) == le_bytes(v as nat, 3));
    }
    if r.spec_is_ordered() {
        let v = opt_or_zero(f.order_index, 0u32);
        lemma_le3(v);
        assert(s.subrange(o3, o3 + 3) == le_bytes(v as nat, 3));
        assert(s[o3 + 3] == f.order_channel);
    }
    if f.is_split {
        let c = opt_or_zero(f.split_count, 0u32) as nat;
        let i = opt_or_zero(f.split_id, 0u16) as nat;
        let x = opt_or_zero(f.split_index, 0u32) as nat;
        assert(s.subrange(o4, o4 + 4) == be_bytes(c, 4));
        assert(s.subrange(o4 + 4, o4 + 6) == be_bytes(i, 2));
        assert(s.subrange(o4 + 6, o4 + 10) == be_bytes(x, 4));
    }
    assert(s.subrange(hl as int, (hl + len) as int) == f.body);
    let d = decode_frame_spec(s);
    assert(d is Ok);
    let fv = d->Ok_0.0;
    assert(fv.reliable_index == f.reliable_index);
    assert(fv.sequence_index == f.sequence_index);
    assert(fv.order_index == f.order_index);
    assert(fv.split_count == f.split_count);
    assert(fv.split_id == f.split_id);
    assert(fv.split_index == f.split_index);
    assert(fv.body == f.body);
    assert(fv == f);
}


/// An entry in a frame set (used during encoding).
#[derive(Debug, Clone)]
pub struct FrameSetEntry {
    pub sequence_number: u32,
    pub frames: Vec<Frame>,
}

/// The views of a list of frames.
pub open spec fn frame_views(fs: Seq<Frame>) -> Seq<FrameView> {
    fs.map_values(|f: Frame| f@)
}

/// The bytes of consecutive frames.
pub open spec fn frames_encoding(fs: Seq<FrameView>) -> Seq<u8>
    decreases fs.len(),
{
    if fs.len() == 0 {
        Seq::empty()
    } else {
        frame_encoding(fs[0]) + frames_encoding(fs.drop_first())
    }
}

pub proof fn lemma_frames_encoding_push(fs: Seq<FrameView>, f: FrameView)
    ensures
        frames_encoding(fs.push(f)) == frames_encoding(fs) + frame_encoding(f),
    decreases fs.len(),
{
    if fs.len() == 0 {
        assert(fs.push(f).drop_first() =~= Seq::<FrameView>::empty());
        assert(frames_encoding(Seq::<FrameView>::empty()) == Seq::<u8>::empty());
        assert(frames_encoding(fs.push(f)) =~= frame_encoding(f));
    } else {
        assert(fs.push(f).drop_first() =~= fs.drop_first().push(f));
        lemma_frames_encoding_push(fs.drop_first(), f);
        assert(frames_encoding(fs.push(f)) =~= frames_encoding(fs) + frame_encoding(f));
    }
}

/// The bytes of a frame-set datagram: header byte 0x80, the sequence
/// number as three little-endian bytes, then the frames.
pub open spec fn datagram_encoding(seq_num: u32, fs: Seq<FrameView>) -> Seq<u8> {
    seq![FRAME_SET_START] + le_bytes(seq_num as nat, 3) + frames_encoding(fs)
}

/// Decoding consecutive frames until the bytes run out.
pub open spec fn decode_frames_spec(s: Seq<u8>) -> Result<Seq<FrameView>, PacketError>
    decreases s.len(),
{
    if s.len() == 0 {
        Ok(Seq::empty())
    } else {
        match decode_frame_spec(s) {
            Err(e) => Err(e),
            Ok((f, n)) => {
                if n == 0 || n > s.len() {
                    Ok(seq![f])
                } else {
                    match decode_frames_spec(s.subrange(n as int, s.len() as int)) {
                        Ok(rest) => Ok(seq![f] + rest),
                        Err(e) => Err(e),
                    }
                }
            },
        }
    }
}

/// `r` is what decoding the datagram `s` gives: the error where reading
/// its header fails, or its sequence number and frames.
pub open spec fn datagram_result_matches(r: Result<FrameSetEntry, PacketError>, s: Seq<u8>) -> bool {
    if s.len() < 4 {
        r == Err::<FrameSetEntry, PacketError>(PacketError::BufferTooShort)
    } else {
        match frame_type_of(s[0]) {
            None => r == Err::<FrameSetEntry, PacketError>(PacketError::UnknownPacketId { id: s[0] }),
            Some(t) => if t != FrameType::FrameSet {
                r matches Err(PacketError::Other(m)) && m@ == "expected frame set"@
            } else {
                match decode_frames_spec(s.subrange(4, s.len() as int)) {
                    Ok(fs) => r matches Ok(e) && e.sequence_number == le_at(s, 1, 3) as u32
                        && frame_views(e.frames@) == fs,
                    Err(err) => r == Err::<FrameSetEntry, PacketError>(err),
                }
            },
        }
    }
}

// ── datagram decode ────────────────────────────────────────────────────

pub fn decode_datagram(buf: &[u8]) -> (r: Result<FrameSetEntry, PacketError>)
    ensures
        datagram_result_matches(r, buf@),
{
    if buf.len() == 0 {
        return Err(PacketError::BufferTooShort);
    }
    let mut pos: usize = 0;
    let header = read_u8(buf, &mut pos)?;
    let sequence_number = read_u24_le(buf, &mut pos)?;
    let frame_type = match FrameType::from_byte(header) {
        Some(t) => t,
        None => {
            return Err(PacketError::UnknownPacketId { id: header });
        },
    };
    if frame_type != FrameType::FrameSet {
        return Err(PacketError::Other("expected frame set".to_string()));
    }
    let mut frames: Vec<Frame> = Vec::new();
    let ghost all = buf@.subrange(4, buf@.len() as int);
    while pos < buf.len()
        invariant
            4 <= pos <= buf@.len(),
            all == buf@.subrange(4, buf@.len() as int),
            frame_type_of(buf@[0]) == Some(FrameType::FrameSet),
            sequence_number == le_at(buf@, 1, 3) as u32,
            decode_frames_spec(all) == match decode_frames_spec(buf@.subrange(pos as int, buf@.len() as int)) {
                Ok(rest) => Ok::<Seq<FrameView>, PacketError>(frame_views(frames@) + rest),
                Err(e) => Err::<Seq<FrameView>, PacketError>(e),
            },
        decreases buf@.len() - pos,
    {
        let ghost cur = buf@.subrange(pos as int, buf@.len() as int);
        let (frame, consumed) = match decode_frame(&buf[pos..buf.len()]) {
            Ok(x) => x,
            Err(e) => {
                assert(decode_frames_spec(cur) == Err::<Seq<FrameView>, PacketError>(e));
                assert(decode_frames_spec(all) == Err::<Seq<FrameView>, PacketError>(e));
                assert(all == buf@.subrange(4, buf@.len() as int));
                assert(frame_type_of(buf@[0]) == Some(FrameType::FrameSet));
                return Err(e);
            },
        };
        let ghost fv = frame@;
        let ghost old_frames = frames@;
        frames.push(frame);
        assert(frame_views(frames@) == frame_views(old_frames).push(fv));
        proof {
            lemma_decoded_frame_len(cur);
        }
        pos = pos + consumed;
        assert(cur.subrange(consumed as int, cur.len() as int) == buf@.subrange(pos as int, buf@.len() as int));
        assert(frame_views(old_frames) + (seq![fv] + seq![]) == frame_views(frames@));
        proof {
            let rest = decode_frames_spec(buf@.subrange(pos as int, buf@.len() as int));
            if rest is Ok {
                assert(frame_views(old_frames) + (seq![fv] + rest->Ok_0) == frame_views(frames@) + rest->Ok_0);
            }
        }
    }
    assert(buf@.subrange(pos as int, buf@.len() as int) =~= Seq::<u8>::empty());
    assert(frame_views(frames@) + Seq::<FrameView>::empty() == frame_views(frames@));
    Ok(FrameSetEntry { sequence_number, frames })
}

/// A decoded frame takes at least three bytes and no more than there are.
pub proof fn lemma_decoded_frame_len(s: Seq<u8>)
    ensures
        decode_frame_spec(s) matches Ok((f, n)) ==> 3 <= n <= s.len(),
{
}

// ── datagram encode ────────────────────────────────────────────────────

pub fn encode_datagram(entry: &FrameSetEntry) -> (r: Vec<u8>)
    ensures
        r@ == datagram_encoding(entry.sequence_number, frame_views(entry.frames@)),
{
    let mut buf = Vec::new();
    write_u8(&mut buf, FRAME_SET_START);
    write_u24_le(&mut buf, entry.sequence_number);
    let ghost head = buf@;
    let mut i: usize = 0;
    while i < entry.frames.len()
        invariant
            i <= entry.frames@.len(),
            buf@ == head + frames_encoding(frame_views(entry.frames@).take(i as int)),
        decreases entry.frames@.len() - i,
    {
        let enc = encode_frame(&entry.frames[i]);
        append_bytes(&mut buf, enc.as_slice());
        proof {
            let vs = frame_views(entry.frames@);
            assert(vs.take(i + 1) == vs.take(i as int).push(vs[i as int]));
            lemma_frames_encoding_push(vs.take(i as int), vs[i as int]);
        }
        i = i + 1;
    }
    assert(frame_views(entry.frames@).take(i as int) == frame_views(entry.frames@));
    buf
}

/// Decoding the bytes of canonical frames gives the frames back.
pub proof fn law_frames_roundtrip(fs: Seq<FrameView>)
    requires
        forall|i: int| 0 <= i < fs.len() ==> frame_canonical(#[trigger] fs[i]),
    ensures
        decode_frames_spec(frames_encoding(fs)) == Ok::<Seq<FrameView>, PacketError>(fs),
    decreases fs.len(),
{
    if fs.len() > 0 {
        let e = frames_encoding(fs);
        let rest = frames_encoding(fs.drop_first());
        assert(frame_canonical(fs[0]));
        law_frame_roundtrip(fs[0], rest);
        assert(e == frame_encoding(fs[0]) + rest);
        let n = frame_encoding(fs[0]).len();
        assert(e.subrange(n as int, e.len() as int) == rest);
        assert forall|i: int| 0 <= i < fs.drop_first().len() implies frame_canonical(#[trigger] fs.drop_first()[i]) by {
            assert(fs.drop_first()[i] == fs[i + 1]);
        }
        law_frames_roundtrip(fs.drop_first());
        assert(seq![fs[0]] + fs.drop_first() == fs);
        lemma_decoded_frame_len(e);
        assert(decode_frame_spec(e) == Ok::<(FrameView, nat), PacketError>((fs[0], n)));
        assert(0 < n <= e.len());
        assert(decode_frames_spec(e.subrange(n as int, e.len() as int)) == Ok::<Seq<FrameView>, PacketError>(fs.drop_first()));
        assert(e.len() > 0);
        assert(decode_frames_spec(e) == Ok::<Seq<FrameView>, PacketError>(seq![fs[0]] + fs.drop_first()));
    } else {
        assert(frames_encoding(fs) == Seq::<u8>::empty());
        assert(fs =~= Seq::<FrameView>::empty());
    }
}

/// Decoding an encoded datagram of canonical frames gives its sequence
/// number (reduced to 24 bits) and its frames back.
pub proof fn law_datagram_roundtrip(seq_num: u32, fs: Seq<FrameView>)
    requires
        forall|i: int| 0 <= i < fs.len() ==> frame_canonical(#[trigger] fs[i]),
    ensures
        ({
            let s = datagram_encoding(seq_num, fs);
            &&& s.len() >= 4
            &&& frame_type_of(s[0]) == Some(FrameType::FrameSet)
            &&& le_at(s, 1, 3) == seq_num % 0x100_0000
            &&& decode_frames_spec(s.subrange(4, s.len() as int)) == Ok::<Seq<FrameView>, PacketError>(fs)
        }),
{
    let s = datagram_encoding(seq_num, fs);
    crate::bytes::lemma_le_roundtrip(seq_num as nat, 3);
    crate::bytes::lemma_le_bytes_len(seq_num as nat, 3);
    reveal_with_fuel(vstd::arithmetic::power::pow, 4);
    assert(s.subrange(1, 4) == le_bytes(seq_num as nat, 3));
    assert(s.subrange(4, s.len() as int) == frames_encoding(fs));
    law_frames_roundtrip(fs);
}


/// A range of sequence numbers (inclusive).
#[derive(Debug, Clone, Copy, PartialEq, Eq, Structural)]
pub struct SequenceRange {
    pub start: u32,
    pub end: u32,
}

/// An ACK record, covering one or more sequence number ranges.
#[derive(Debug, Clone)]
pub struct Ack {
    pub sequences: Vec<SequenceRange>,
}

/// A NACK (negative acknowledgment).
#[derive(Debug, Clone)]
pub struct Nack {
    pub sequences: Vec<SequenceRange>,
}

/// One range on the wire: a byte that is 1 for a single number, the
/// start as three little-endian bytes, and the end unless single.
pub open spec fn range_encoding(r: SequenceRange) -> Seq<u8> {
    if r.start == r.end {
        seq![1u8] + le_bytes(r.start as nat, 3)
    } else {
        seq![0u8] + le_bytes(r.start as nat, 3) + le_bytes(r.end as nat, 3)
    }
}

pub open spec fn ranges_encoding(rs: Seq<SequenceRange>) -> Seq<u8>
    decreases rs.len(),
{
    if rs.len() == 0 {
        Seq::empty()
    } else {
        range_encoding(rs[0]) + ranges_encoding(rs.drop_first())
    }
}

pub proof fn lemma_ranges_encoding_push(rs: Seq<SequenceRange>, r: SequenceRange)
    ensures
        ranges_encoding(rs.push(r)) == ranges_encoding(rs) + range_encoding(r),
    decreases rs.len(),
{
    if rs.len() == 0 {
        assert(rs.push(r).drop_first() =~= Seq::<SequenceRange>::empty());
        assert(ranges_encoding(Seq::<SequenceRange>::empty()) == Seq::<u8>::empty());
        assert(rs.push(r)[0] == r);
        assert(ranges_encoding(rs) == Seq::<u8>::empty());
        assert(ranges_encoding(rs.push(r)) =~= range_encoding(r));
    } else {
        assert(rs.push(r).drop_first() =~= rs.drop_first().push(r));
        lemma_ranges_encoding_push(rs.drop_first(), r);
        assert(ranges_encoding(rs.push(r)) =~= ranges_encoding(rs) + range_encoding(r));
    }
}

/// The bytes of an ACK (0xc0) or NACK (0xa0): the header byte, the number
/// of ranges as a 16-bit big-endian value, then the ranges.
pub open spec fn ack_encoding(rs: Seq<SequenceRange>, is_nack: bool) -> Seq<u8> {
    seq![if is_nack { 0xa0u8 } else { 0xc0u8 }] + be_bytes(rs.len(), 2) + ranges_encoding(rs)
}

/// Decoding `count` ranges from `s` at `pos`.
pub open spec fn decode_ranges_spec(s: Seq<u8>, pos: int, count: nat) -> Result<Seq<SequenceRange>, PacketError>
    decreases count,
{
    if count == 0 {
        Ok(Seq::empty())
    } else if pos + 4 > s.len() {
        Err(PacketError::BufferTooShort)
    } else {
        let start = le_at(s, pos + 1, 3) as u32;
        if s[pos] != 0 {
            match decode_ranges_spec(s, pos + 4, (count - 1) as nat) {
                Ok(rest) => Ok(seq![SequenceRange { start, end: start }] + rest),
                Err(e) => Err(e),
            }
        } else if pos + 7 > s.len() {
            Err(PacketError::BufferTooShort)
        } else {
            let end = le_at(s, pos + 4, 3) as u32;
            match decode_ranges_spec(s, pos + 7, (count - 1) as nat) {
                Ok(rest) => Ok(seq![SequenceRange { start, end }] + rest),
                Err(e) => Err(e),
            }
        }
    }
}

/// Decoding an ACK or NACK: the header byte is skipped, then the count
/// and that many ranges are read.
pub open spec fn decode_ack_spec(s: Seq<u8>) -> Result<Seq<SequenceRange>, PacketError> {
    if s.len() < 3 {
        Err(PacketError::BufferTooShort)
    } else {
        decode_ranges_spec(s, 3, be_at(s, 1, 2))
    }
}

/// `r` holds the ranges of `spec`, or its error.
pub open spec fn ack_result_matches(r: Result<Ack, PacketError>, spec: Result<Seq<SequenceRange>, PacketError>) -> bool {
    match spec {
        Ok(rs) => r matches Ok(a) && a.sequences@ == rs,
        Err(e) => r == Err::<Ack, PacketError>(e),
    }
}

// ── ACK / NACK ─────────────────────────────────────────────────────────

pub fn decode_ack(buf: &[u8]) -> (r: Result<Ack, PacketError>)
    ensures
        ack_result_matches(r, decode_ack_spec(buf@)),
{
    if buf.len() == 0 {
        return Err(PacketError::BufferTooShort);
    }
    let mut pos: usize = 1;
    let count = read_u16_be(buf, &mut pos)? as usize;
    proof {
        crate::bytes::lemma_be_value_bytes(buf@.subrange(1, 3));
        reveal_with_fuel(vstd::arithmetic::power::pow, 3);
    }
    let mut sequences: Vec<SequenceRange> = Vec::new();
    let mut i: usize = 0;
    while i < count
        invariant
            i <= count,
            count == be_at(buf@, 1, 2),
            buf@.len() >= 3,
            decode_ack_spec(buf@) == match decode_ranges_spec(buf@, pos as int, (count - i) as nat) {
                Ok(rest) => Ok::<Seq<SequenceRange>, PacketError>(sequences@ + rest),
                Err(e) => Err::<Seq<SequenceRange>, PacketError>(e),
            },
        decreases count - i,
    {
        let ghost p0 = pos;
        let ghost old_seqs = sequences@;
        let b = match read_u8(buf, &mut pos) {
            Ok(b) => b,
            Err(e) => {
                return Err(e);
            },
        };
        let single = b != 0;
        let start = match read_u24_le(buf, &mut pos) {
            Ok(v) => v,
            Err(e) => {
                return Err(e);
            },
        };
        let end = if single {
            start
        } else {
            match read_u24_le(buf, &mut pos) {
                Ok(v) => v,
                Err(e) => {
                    return Err(e);
                },
            }
        };
        let range = SequenceRange { start, end };
        sequences.push(range);
        proof {
            let rest = decode_ranges_spec(buf@, pos as int, (count - i - 1) as nat);
            if rest is Ok {
                assert(old_seqs + (seq![range] + rest->Ok_0) == sequences@ + rest->Ok_0);
            }
        }
        i = i + 1;
    }
    assert(sequences@ + Seq::<SequenceRange>::empty() == sequences@);
    Ok(Ack { sequences })
}

pub fn decode_nack(buf: &[u8]) -> (r: Result<Nack, PacketError>)
    ensures
        match decode_ack_spec(buf@) {
            Ok(rs) => r matches Ok(n) && n.sequences@ == rs,
            Err(e) => r == Err::<Nack, PacketError>(e),
        },
{
    let ack = decode_ack(buf)?;
    Ok(Nack { sequences: ack.sequences })
}

pub fn encode_ack(ack: &Ack, is_nack: bool) -> (r: Vec<u8>)
    ensures
        r@ == ack_encoding(ack.sequences@, is_nack),
{
    let mut buf = Vec::new();
    write_u8(&mut buf, if is_nack { 0xa0 } else { 0xc0 });
    let n = ack.sequences.len();
    proof {
        crate::bytes::lemma_be_bytes_mod(n as nat, 2);
        crate::bytes::lemma_be_bytes_mod((n % 65536) as nat, 2);
        reveal_with_fuel(vstd::arithmetic::power::pow, 3);
    }
    write_u16_be(&mut buf, (n % 65536) as u16);
    let ghost head = buf@;
    let mut i: usize = 0;
    while i < n
        invariant
            i <= n == ack.sequences@.len(),
            buf@ == head + ranges_encoding(ack.sequences@.take(i as int)),
        decreases n - i,
    {
        let range = ack.sequences[i];
        let single = range.start == range.end;
        write_u8(&mut buf, if single { 1 } else { 0 });
        write_u24_le(&mut buf, range.start);
        if !single {
            write_u24_le(&mut buf, range.end);
        }
        proof {
            let rs = ack.sequences@;
            assert(rs.take(i + 1) == rs.take(i as int).push(rs[i as int]));
            lemma_ranges_encoding_push(rs.take(i as int), rs[i as int]);
        }
        i = i + 1;
    }
    assert(ack.sequences@.take(n as int) == ack.sequences@);
    buf
}

/// Ranges whose numbers fit the 24 bits the wire gives them.
pub open spec fn ranges_fit(rs: Seq<SequenceRange>) -> bool {
    forall|i: int| 0 <= i < rs.len() ==> (#[trigger] rs[i]).start < 0x100_0000 && rs[i].end < 0x100_0000
}

proof fn lemma_ranges_roundtrip(pre: Seq<u8>, rs: Seq<SequenceRange>, post: Seq<u8>)
    requires
        ranges_fit(rs),
    ensures
        decode_ranges_spec(pre + ranges_encoding(rs) + post, pre.len() as int, rs.len())
            == Ok::<Seq<SequenceRange>, PacketError>(rs),
    decreases rs.len(),
{
    if rs.len() == 0 {
        assert(rs =~= Seq::<SequenceRange>::empty());
    } else {
        let r = rs[0];
        let s = pre + ranges_encoding(rs) + post;
        let p = pre.len() as int;
        let e = range_encoding(r);
        assert(ranges_encoding(rs) == e + ranges_encoding(rs.drop_first()));
        let pre2 = pre + e;
        assert(s == pre2 + ranges_encoding(rs.drop_first()) + post);
        assert(ranges_fit(rs.drop_first())) by {
            assert forall|i: int| 0 <= i < rs.drop_first().len() implies (#[trigger] rs.drop_first()[i]).start < 0x100_0000 && rs.drop_first()[i].end < 0x100_0000 by {
                assert(rs.drop_first()[i] == rs[i + 1]);
            }
        }
        lemma_ranges_roundtrip(pre2, rs.drop_first(), post);
        lemma_le3(r.start);
        lemma_le3(r.end);
        assert(s.subrange(p + 1, p + 4) == le_bytes(r.start as nat, 3));
        if r.start != r.end {
            assert(s.subrange(p + 4, p + 7) == le_bytes(r.end as nat, 3));
        }
        assert(seq![r] + rs.drop_first() == rs);
    }
}

/// Decoding an encoded ACK or NACK gives its ranges back, when there are
/// fewer than 65536 of them and their numbers fit 24 bits.
pub proof fn law_ack_roundtrip(rs: Seq<SequenceRange>, is_nack: bool)
    requires
        ranges_fit(rs),
        rs.len() < 0x1_0000,
    ensures
        decode_ack_spec(ack_encoding(rs, is_nack)) == Ok::<Seq<SequenceRange>, PacketError>(rs),
{
    let s = ack_encoding(rs, is_nack);
    lemma_pow256_small();
    lemma_be_n(rs.len(), 2);
    let pre = seq![if is_nack { 0xa0u8 } else { 0xc0u8 }] + be_bytes(rs.len(), 2);
    assert(s.subrange(1, 3) == be_bytes(rs.len(), 2));
    assert(s == pre + ranges_encoding(rs) + Seq::<u8>::empty());
    lemma_ranges_roundtrip(pre, rs, Seq::<u8>::empty());
}


/// A socket address as the RakNet handshake carries it: an IPv4 address
/// (its four octets as a big-endian number) and port, or an IPv6 address
/// and port.
#[derive(Debug, Clone, Copy, PartialEq, Eq, Structural)]
pub enum NetAddress {
    V4 { ipv4: u32, port: u16 },
    V6 { ipv6: u128, port: u16 },
}

/// Offline messages exchanged before the connection is established.
#[derive(Debug)]
pub enum OfflinePacket {
    UnconnectedPing { time: i64, client_guid: i64 },
    UnconnectedPong { time: i64, server_guid: i64, motd: String },
    OpenConnectionRequest1 { protocol_version: u8, mtu: u16 },
    OpenConnectionReply1 { server_guid: i64, use_encryption: bool, mtu: u16 },
    OpenConnectionRequest2 { server_address: NetAddress, mtu: u16, client_guid: i64 },
    OpenConnectionReply2 { server_guid: i64, client_address: NetAddress, mtu: u16, encryption_enabled: bool },
    IncompatibleProtocol { server_protocol: u8, server_guid: i64 },
}

/// Every byte of `s` with its bits inverted.
pub open spec fn inverted(s: Seq<u8>) -> Seq<u8> {
    Seq::new(s.len(), |i: int| (255 - s[i]) as u8)
}

/// An address on the wire: version 4, the inverted octets and the port;
/// or version 6, four zero bytes and the port.
pub open spec fn address_encoding(a: NetAddress) -> Seq<u8> {
    match a {
        NetAddress::V4 { ipv4: ip, port } => seq![4u8] + inverted(be_bytes(ip as nat, 4)) + be_bytes(port as nat, 2),
        NetAddress::V6 { ipv6: _, port } => seq![6u8, 0, 0, 0, 0] + be_bytes(port as nat, 2),
    }
}

/// The first `min(len, 65535)` bytes of `b`, after that count as a 16-bit
/// big-endian value.
pub open spec fn be_string(b: Seq<u8>) -> Seq<u8> {
    let len = if b.len() > 0xffff { 0xffff } else { b.len() };
    be_bytes(len, 2) + b.subrange(0, len as int)
}

/// The bytes the server writes for an offline packet. Requests, which only
/// clients send, are written as nothing.
pub open spec fn offline_encoding(p: OfflinePacket) -> Seq<u8> {
    match p {
        OfflinePacket::UnconnectedPing { time, client_guid } => seq![UNCONNECTED_PING]
            + be_bytes(time as u64 as nat, 8) + magic() + be_bytes(0, 8),
        OfflinePacket::UnconnectedPong { time, server_guid, motd } => seq![UNCONNECTED_PONG]
            + be_bytes(time as u64 as nat, 8) + be_bytes(server_guid as u64 as nat, 8) + magic()
            + be_string(vstd::utf8::encode_utf8(motd@)),
        OfflinePacket::OpenConnectionReply1 { server_guid, use_encryption, mtu } => seq![
            OPEN_CONNECTION_REPLY_1,
        ] + magic() + be_bytes(server_guid as u64 as nat, 8) + seq![
            if use_encryption { 1u8 } else { 0u8 },
        ] + be_bytes(mtu as nat, 2),
        OfflinePacket::OpenConnectionReply2 { server_guid, client_address, mtu, encryption_enabled } =>
            seq![OPEN_CONNECTION_REPLY_2] + magic() + be_bytes(server_guid as u64 as nat, 8)
                + address_encoding(client_address) + be_bytes(mtu as nat, 2) + seq![
                if encryption_enabled { 1u8 } else { 0u8 },
            ],
        OfflinePacket::IncompatibleProtocol { server_protocol, server_guid } => seq![
            DISCONNECTION,
            server_protocol,
        ] + magic() + be_bytes(server_guid as u64 as nat, 8),
        _ => Seq::empty(),
    }
}

fn write_address(buf: &mut Vec<u8>, addr: NetAddress)
    ensures
        final(buf)@ == old(buf)@ + address_encoding(addr),
{
    match addr {
        NetAddress::V4 { ipv4: ip, port } => {
            write_u8(buf, 4);
            let mut octets: Vec<u8> = Vec::new();
            push_be(&mut octets, ip as u64, 4);
            proof {
                crate::bytes::lemma_be_bytes_len(ip as nat, 4);
                assert(octets@ =~= be_bytes(ip as nat, 4));
            }
            let ghost start = buf@;
            let mut i: usize = 0;
            while i < 4
                invariant
                    i <= 4,
                    octets@ == be_bytes(ip as nat, 4),
                    octets@.len() == 4,
                    buf@ == start + inverted(octets@).take(i as int),
                decreases 4 - i,
            {
                let o = octets[i];
                write_u8(buf, !o);
                assert(!o == 255 - o) by (bit_vector);
                assert(inverted(octets@).take(i + 1) == inverted(octets@).take(i as int).push((255 - octets@[i as int]) as u8));
                i = i + 1;
            }
            assert(inverted(octets@).take(4) == inverted(octets@));
            write_u16_be(buf, port);
        },
        NetAddress::V6 { ipv6: _, port } => {
            write_u8(buf, 6);
            write_u8(buf, 0);
            write_u8(buf, 0);
            write_u8(buf, 0);
            write_u8(buf, 0);
            write_u16_be(buf, port);
            assert(buf@ =~= old(buf)@ + address_encoding(addr));
        },
    }
}

// ── offline packet encode ──────────────────────────────────────────────

pub fn encode_offline(packet: &OfflinePacket) -> (r: Vec<u8>)
    ensures
        r@ == offline_encoding(*packet),
{
    let mut buf = Vec::new();
    match packet {
        OfflinePacket::UnconnectedPing { time, client_guid: _ } => {
            write_u8(&mut buf, UNCONNECTED_PING);
            write_i64_be(&mut buf, *time);
            write_magic(&mut buf);
            write_i64_be(&mut buf, 0);
        },
        OfflinePacket::UnconnectedPong { time, server_guid, motd } => {
            write_u8(&mut buf, UNCONNECTED_PONG);
            write_i64_be(&mut buf, *time);
            write_i64_be(&mut buf, *server_guid);
            write_magic(&mut buf);
            let motd_bytes = motd.as_str().as_bytes();
            let len: usize = if motd_bytes.len() > 0xffff { 0xffff } else { motd_bytes.len() };
            write_u16_be(&mut buf, len as u16);
            append_bytes(&mut buf, &motd_bytes[0..len]);
        },
        OfflinePacket::OpenConnectionReply1 { server_guid, use_encryption, mtu } => {
            write_u8(&mut buf, OPEN_CONNECTION_REPLY_1);
            write_magic(&mut buf);
            write_i64_be(&mut buf, *server_guid);
            write_u8(&mut buf, if *use_encryption { 1 } else { 0 });
            write_u16_be(&mut buf, *mtu);
        },
        OfflinePacket::OpenConnectionReply2 { server_guid, client_address, mtu, encryption_enabled } => {
            write_u8(&mut buf, OPEN_CONNECTION_REPLY_2);
            write_magic(&mut buf);
            write_i64_be(&mut buf, *server_guid);
            write_address(&mut buf, *client_address);
            write_u16_be(&mut buf, *mtu);
            write_u8(&mut buf, if *encryption_enabled { 1 } else { 0 });
        },
        OfflinePacket::IncompatibleProtocol { server_protocol, server_guid } => {
            write_u8(&mut buf, DISCONNECTION);
            write_u8(&mut buf, *server_protocol);
            write_magic(&mut buf);
            write_i64_be(&mut buf, *server_guid);
        },
        OfflinePacket::OpenConnectionRequest1 { .. } | OfflinePacket::OpenConnectionRequest2 { .. } => {
            // client-to-server only; never written by the server
        },
    }
    assert(buf@ =~= offline_encoding(*packet));
    buf
}


/// Reading an address at `at`: the address and the bytes it takes, or the
/// error.
pub open spec fn decode_address_spec(s: Seq<u8>, at: int) -> Result<(NetAddress, nat), PacketError> {
    if at >= s.len() {
        Err(PacketError::BufferTooShort)
    } else if s[at] != 4 {
        Err(PacketError::InvalidIpVersion(s[at]))
    } else if at + 7 > s.len() {
        Err(PacketError::BufferTooShort)
    } else {
        Ok((NetAddress::V4 {
            ipv4: be_value(inverted(s.subrange(at + 1, at + 5))) as u32,
            port: be_at(s, at + 5, 2) as u16,
        }, 7))
    }
}

/// The big-endian 64-bit value at `at`, as a signed number.
pub open spec fn i64_at(s: Seq<u8>, at: int) -> i64 {
    be_at(s, at, 8) as u64 as i64
}

/// Decoding an offline packet sent by a client: an unconnected ping or one
/// of the two open-connection requests.
pub open spec fn decode_offline_spec(s: Seq<u8>) -> Result<OfflinePacket, PacketError> {
    if s.len() == 0 {
        Err(PacketError::BufferTooShort)
    } else if s[0] == UNCONNECTED_PING {
        if s.len() < 25 {
            Err(PacketError::BufferTooShort)
        } else if s.subrange(9, 25) != magic() {
            Err(PacketError::InvalidMagic)
        } else if s.len() < 33 {
            Err(PacketError::BufferTooShort)
        } else {
            Ok(OfflinePacket::UnconnectedPing { time: i64_at(s, 1), client_guid: i64_at(s, 25) })
        }
    } else if s[0] == OPEN_CONNECTION_REQUEST_1 {
        if s.len() < 17 {
            Err(PacketError::BufferTooShort)
        } else if s.subrange(1, 17) != magic() {
            Err(PacketError::InvalidMagic)
        } else if s.len() < 18 {
            Err(PacketError::BufferTooShort)
        } else {
            let claimed = ((s.len() - 18 + 28) % 0x1_0000) as u16;
            Ok(OfflinePacket::OpenConnectionRequest1 {
                protocol_version: s[17],
                mtu: if claimed < MAX_MTU { claimed } else { MAX_MTU },
            })
        }
    } else if s[0] == OPEN_CONNECTION_REQUEST_2 {
        if s.len() < 17 {
            Err(PacketError::BufferTooShort)
        } else if s.subrange(1, 17) != magic() {
            Err(PacketError::InvalidMagic)
        } else {
            match decode_address_spec(s, 17) {
                Err(e) => Err(e),
                Ok((addr, n)) => if s.len() < 34 {
                    Err(PacketError::BufferTooShort)
                } else {
                    Ok(OfflinePacket::OpenConnectionRequest2 {
                        server_address: addr,
                        mtu: be_at(s, 24, 2) as u16,
                        client_guid: i64_at(s, 26),
                    })
                },
            }
        }
    } else {
        Err(PacketError::UnknownPacketId { id: s[0] })
    }
}

fn read_magic(buf: &[u8], pos: &mut usize) -> (r: Result<(), PacketError>)
    ensures
        *old(pos) + 16 > buf@.len() ==> r == Err::<(), PacketError>(PacketError::BufferTooShort),
        *old(pos) + 16 <= buf@.len() && buf@.subrange(*old(pos) as int, *old(pos) + 16) != magic()
            ==> r == Err::<(), PacketError>(PacketError::InvalidMagic),
        *old(pos) + 16 <= buf@.len() && buf@.subrange(*old(pos) as int, *old(pos) + 16) == magic()
            ==> r == Ok::<(), PacketError>(()) && *final(pos) == *old(pos) + 16,
{
    if *pos > buf.len() || buf.len() - *pos < 16 {
        return Err(PacketError::BufferTooShort);
    }
    let m: [u8; 16] = MAGIC;
    assert(m@ =~= magic());
    let len = buf.len();
    let mut i: usize = 0;
    while i < 16
        invariant
            len == buf@.len(),
            i <= 16,
            *pos + 16 <= buf@.len(),
            m@ == magic(),
            buf@.subrange(*pos as int, *pos + i) == magic().take(i as int),
        decreases 16 - i,
    {
        if buf[*pos + i] != m[i] {
            assert(buf@.subrange(*pos as int, *pos + 16)[i as int] != magic()[i as int]);
            return Err(PacketError::InvalidMagic);
        }
        assert(buf@.subrange(*pos as int, *pos + i + 1) == magic().take(i + 1));
        i = i + 1;
    }
    assert(magic().take(16) == magic());
    *pos = *pos + 16;
    Ok(())
}

fn read_address(buf: &[u8], pos: &mut usize) -> (r: Result<NetAddress, PacketError>)
    ensures
        match decode_address_spec(buf@, *old(pos) as int) {
            Ok((a, n)) => r == Ok::<NetAddress, PacketError>(a) && *final(pos) == *old(pos) + n,
            Err(e) => r == Err::<NetAddress, PacketError>(e),
        },
{
    let version = read_u8(buf, pos)?;
    if version != 4 {
        return Err(PacketError::InvalidIpVersion(version));
    }
    if *pos > buf.len() || buf.len() - *pos < 6 {
        return Err(PacketError::BufferTooShort);
    }
    let p = *pos;
    let mut inv: Vec<u8> = Vec::new();
    let len = buf.len();
    let mut i: usize = 0;
    while i < 4
        invariant
            len == buf@.len(),
            i <= 4,
            p + 6 <= buf@.len(),
            inv@ == inverted(buf@.subrange(p as int, p + 4)).take(i as int),
        decreases 4 - i,
    {
        let o = buf[p + i];
        inv.push(!o);
        assert(!o == 255 - o) by (bit_vector);
        assert(inverted(buf@.subrange(p as int, p + 4)).take(i + 1) == inverted(buf@.subrange(p as int, p + 4)).take(i as int).push((255 - o) as u8));
        i = i + 1;
    }
    assert(inverted(buf@.subrange(p as int, p + 4)).take(4) == inverted(buf@.subrange(p as int, p + 4)));
    let ip = read_be(inv.as_slice(), 0, 4) as u32;
    assert(inv@.subrange(0, 4) == inv@);
    *pos = p + 4;
    let port = read_u16_be(buf, pos)?;
    Ok(NetAddress::V4 { ipv4: ip, port })
}

/// `r` is what decoding the offline packet `s` gives.
pub open spec fn offline_result_matches(r: Result<OfflinePacket, PacketError>, s: Seq<u8>) -> bool {
    r == decode_offline_spec(s)
}

// ── offline packet decode ──────────────────────────────────────────────

pub fn decode_offline(buf: &[u8]) -> (r: Result<OfflinePacket, PacketError>)
    ensures
        r == decode_offline_spec(buf@),
{
    if buf.len() == 0 {
        return Err(PacketError::BufferTooShort);
    }
    let mut pos: usize = 1;
    let id = buf[0];
    if id == UNCONNECTED_PING {
        let time = read_i64_be(buf, &mut pos)?;
        read_magic(buf, &mut pos)?;
        let client_guid = read_i64_be(buf, &mut pos)?;
        Ok(OfflinePacket::UnconnectedPing { time, client_guid })
    } else if id == OPEN_CONNECTION_REQUEST_1 {
        read_magic(buf, &mut pos)?;
        let protocol_version = read_u8(buf, &mut pos)?;
        let claimed = (((buf.len() - pos) % 0x1_0000 + 28) % 0x1_0000) as u16;
        assert(claimed == ((buf@.len() - 18 + 28) % 0x1_0000) as u16) by (nonlinear_arith)
            requires claimed == (((buf@.len() - 18) % 0x1_0000 + 28) % 0x1_0000) as u16, buf@.len() >= 18;
        Ok(OfflinePacket::OpenConnectionRequest1 {
            protocol_version,
            mtu: if claimed < MAX_MTU { claimed } else { MAX_MTU },
        })
    } else if id == OPEN_CONNECTION_REQUEST_2 {
        read_magic(buf, &mut pos)?;
        let server_address = read_address(buf, &mut pos)?;
        if buf.len() < 34 {
            return Err(PacketError::BufferTooShort);
        }
        let mtu = read_u16_be(buf, &mut pos)?;
        let client_guid = read_i64_be(buf, &mut pos)?;
        Ok(OfflinePacket::OpenConnectionRequest2 { server_address, mtu, client_guid })
    } else {
        Err(PacketError::UnknownPacketId { id })
    }
}


/// A decoded RakNet packet — either a single offline packet or a datagram
/// containing multiple frames.
#[derive(Debug)]
pub enum RaknetPacket {
    /// A standalone offline message (ping, connection request/reply).
    Offline(OfflinePacket),
    /// An ACK for a range of datagram sequence numbers.
    Ack(Ack),
    /// A NACK for a range of datagram sequence numbers.
    Nack(Nack),
    /// A frame set datagram carrying game-layer payloads.
    FrameSet { sequence_number: u32, frames: Vec<Frame> },
}

/// `r` is what parsing the raw packet `s` gives: by the leading byte, an
/// offline packet, an ACK, a NACK or a frame set, or the error of that
/// decoder; an unknown leading byte gives `UnknownPacketId`.
pub open spec fn parse_result_matches(r: Result<RaknetPacket, PacketError>, s: Seq<u8>) -> bool {
    if s.len() == 0 {
        r == Err::<RaknetPacket, PacketError>(PacketError::BufferTooShort)
    } else {
        match frame_type_of(s[0]) {
            None => if s[0] == UNCONNECTED_PING || s[0] == OPEN_CONNECTION_REQUEST_1 || s[0]
                == OPEN_CONNECTION_REQUEST_2 {
                match decode_offline_spec(s) {
                    Ok(p) => r == Ok::<RaknetPacket, PacketError>(RaknetPacket::Offline(p)),
                    Err(e) => r == Err::<RaknetPacket, PacketError>(e),
                }
            } else {
                r == Err::<RaknetPacket, PacketError>(PacketError::UnknownPacketId { id: s[0] })
            },
            Some(FrameType::Ack) => match decode_ack_spec(s) {
                Ok(rs) => r matches Ok(RaknetPacket::Ack(a)) && a.sequences@ == rs,
                Err(e) => r == Err::<RaknetPacket, PacketError>(e),
            },
            Some(FrameType::Nack) => match decode_ack_spec(s) {
                Ok(rs) => r matches Ok(RaknetPacket::Nack(a)) && a.sequences@ == rs,
                Err(e) => r == Err::<RaknetPacket, PacketError>(e),
            },
            Some(FrameType::FrameSet) => {
                &&& (r is Ok ==> r matches Ok(RaknetPacket::FrameSet { .. }))
                &&& datagram_result_matches(
                    match r {
                        Ok(RaknetPacket::FrameSet { sequence_number, frames }) => Ok(
                            FrameSetEntry { sequence_number, frames },
                        ),
                        Ok(_) => Err(PacketError::BufferTooShort),
                        Err(e) => Err(e),
                    },
                    s,
                )
            },
        }
    }
}

// ── top-level dispatch ─────────────────────────────────────────────────

/// Parse any RakNet packet from raw bytes.
pub fn parse_packet(buf: &[u8]) -> (r: Result<RaknetPacket, PacketError>)
    ensures
        parse_result_matches(r, buf@),
{
    if buf.len() == 0 {
        return Err(PacketError::BufferTooShort);
    }
    let id = buf[0];
    let frame_type = FrameType::from_byte(id);
    match frame_type {
        None => {
            if id == UNCONNECTED_PING || id == OPEN_CONNECTION_REQUEST_1 || id == OPEN_CONNECTION_REQUEST_2 {
                Ok(RaknetPacket::Offline(decode_offline(buf)?))
            } else {
                Err(PacketError::UnknownPacketId { id })
            }
        },
        Some(FrameType::Ack) => Ok(RaknetPacket::Ack(decode_ack(buf)?)),
        Some(FrameType::Nack) => Ok(RaknetPacket::Nack(decode_nack(buf)?)),
        Some(FrameType::FrameSet) => {
            let entry = decode_datagram(buf)?;
            Ok(RaknetPacket::FrameSet { sequence_number: entry.sequence_number, frames: entry.frames })
        },
    }
}

/// Bytes of payload per split frame for an MTU: the MTU less the datagram
/// and frame headers (34 bytes), and never below 16.
pub open spec fn split_chunk_size(mtu: u16) -> nat {
    if mtu >= 50 { (mtu - 34) as nat } else { 16 }
}

/// The bodies of frames, one after another.
pub open spec fn concat_bodies(fs: Seq<FrameView>) -> Seq<u8>
    decreases fs.len(),
{
    if fs.len() == 0 {
        Seq::empty()
    } else {
        concat_bodies(fs.drop_last()) + fs.last().body
    }
}

/// The split frames of `body` for an MTU: as many as pieces of
/// `split_chunk_size(mtu)` bytes it takes, each carrying the split id, the
/// piece count, its own index and its piece, with the given reliability,
/// channel, reliable index and order index.
pub open spec fn split_frames_spec(
    body: Seq<u8>,
    mtu: u16,
    split_id: u16,
    reliability: Reliability,
    ch: u8,
    rel_idx: u32,
    ord_idx: u32,
) -> Seq<FrameView> {
    let chunk = split_chunk_size(mtu);
    let n = ((body.len() + chunk - 1) / chunk as int) as nat;
    Seq::new(n, |i: int| FrameView {
        reliability,
        is_split: true,
        reliable_index: Some(rel_idx),
        sequence_index: None,
        order_index: Some(ord_idx),
        order_channel: ch,
        split_count: Some(n as u32),
        split_id: Some(split_id),
        split_index: Some(i as u32),
        body: body.subrange(i * chunk, if (i + 1) * chunk < body.len() { (i + 1) * chunk } else { body.len() as int }),
    })
}

/// The piece count: `n` pieces of `chunk` bytes cover `len` bytes exactly
/// when `n` is `len` divided by `chunk`, rounded up.
proof fn lemma_piece_count(len: int, chunk: int, n: int)
    requires
        chunk > 0,
        len >= 0,
        n >= 0,
        len == 0 ==> n == 0,
        len > 0 ==> (n - 1) * chunk < len <= n * chunk,
    ensures
        n == (len + chunk - 1) / chunk,
{
    if len == 0 {
        assert((chunk - 1) / chunk == 0) by (nonlinear_arith)
            requires chunk > 0;
    } else {
        assert(n == (len + chunk - 1) / chunk) by (nonlinear_arith)
            requires
                chunk > 0,
                (n - 1) * chunk < len,
                len <= n * chunk,
        ;
    }
}

/// Cut `body` into split frames of at most `split_chunk_size(mtu)` bytes,
/// each carrying the split id, the piece count and its own index, with the
/// given reliability, channel, reliable index and order index.
pub fn split_payload(
    body: &[u8],
    mtu: u16,
    split_id: u16,
    reliability: Reliability,
    ch: u8,
    rel_idx: u32,
    ord_idx: u32,
) -> (r: Vec<Frame>)
    ensures
        ({
            let chunk = split_chunk_size(mtu);
            let n = r@.len();
            &&& frame_views(r@) == split_frames_spec(body@, mtu, split_id, reliability, ch, rel_idx, ord_idx)
            &&& concat_bodies(frame_views(r@)) == body@
            &&& (body@.len() == 0 ==> n == 0)
            &&& (body@.len() > 0 ==> (n - 1) * chunk < body@.len() <= n * chunk)
            &&& forall|i: int| #![trigger r@[i]] 0 <= i < n ==> {
                let f = r@[i]@;
                &&& f.reliability == reliability
                &&& f.is_split
                &&& f.reliable_index == Some(rel_idx)
                &&& f.sequence_index is None
                &&& f.order_index == Some(ord_idx)
                &&& f.order_channel == ch
                &&& f.split_count == Some(n as u32)
                &&& f.split_id == Some(split_id)
                &&& f.split_index == Some(i as u32)
                &&& f.body == body@.subrange(i * chunk, if (i + 1) * chunk < body@.len() { (i + 1) * chunk } else { body@.len() as int })
            }
        }),
{
    let chunk: usize = if mtu >= 50 { (mtu - 34) as usize } else { 16 };
    let len = body.len();
    assert(len / chunk < len || len == 0) by (nonlinear_arith)
        requires chunk >= 16;
    let count_raw: usize = len / chunk + (if len % chunk != 0 { 1 } else { 0 });
    let count: usize = if count_raw == 0 { 1 } else { count_raw };
    let mut frames: Vec<Frame> = Vec::new();
    let mut pos: usize = 0;
    let mut i: usize = 0;
    while pos < len
        invariant
            chunk == split_chunk_size(mtu),
            chunk >= 16,
            len == body@.len(),
            pos <= len,
            i <= pos,
            i == frames@.len(),
            pos < len ==> pos == i * chunk,
            i > 0 ==> (i - 1) * chunk < pos,
            pos == len && i > 0 ==> pos <= i * chunk,
            i * chunk <= pos || pos == len,
            concat_bodies(frame_views(frames@)) == body@.subrange(0, pos as int),
            count_raw == len / chunk + (if len % chunk != 0 { 1int } else { 0int }),
            forall|k: int| #![trigger frames@[k]] 0 <= k < i ==> {
                let f = frames@[k]@;
                &&& f.reliability == reliability
                &&& f.is_split
                &&& f.reliable_index == Some(rel_idx)
                &&& f.sequence_index is None
                &&& f.order_index == Some(ord_idx)
                &&& f.order_channel == ch
                &&& f.split_count == Some(count as u32)
                &&& f.split_id == Some(split_id)
                &&& f.split_index == Some(k as u32)
                &&& f.body == body@.subrange(k * chunk, if (k + 1) * chunk < len { (k + 1) * chunk } else { len as int })
            },
        decreases len - pos,
    {
        let end: usize = if len - pos > chunk { pos + chunk } else { len };
        assert((i + 1) * chunk == i * chunk + chunk) by (nonlinear_arith);
        let piece = vstd::slice::slice_to_vec(&body[pos..end]);
        let ghost old_frames = frames@;
        frames.push(Frame {
            reliability,
            is_split: true,
            reliable_index: Some(rel_idx),
            sequence_index: None,
            order_index: Some(ord_idx),
            order_channel: ch,
            split_count: Some(count as u32),
            split_id: Some(split_id),
            split_index: Some(i as u32),
            body: piece,
        });
        proof {
            assert(frame_views(frames@).drop_last() == frame_views(old_frames));
            assert(body@.subrange(0, end as int) == body@.subrange(0, pos as int) + body@.subrange(pos as int, end as int));
        }
        pos = end;
        i = i + 1;
    }
    proof {
        assert(body@.subrange(0, len as int) == body@);
        if len > 0 {
            assert(i > 0);
            assert(count_raw == i) by (nonlinear_arith)
                requires
                    (i - 1) * chunk < len,
                    len <= i * chunk,
                    chunk > 0,
                    count_raw == len / chunk + (if len % chunk != 0 { 1int } else { 0int }),
            ;
        } else {
            assert(i == 0);
        }
        lemma_piece_count(len as int, chunk as int, i as int);
        assert(frame_views(frames@) =~= split_frames_spec(body@, mtu, split_id, reliability, ch, rel_idx, ord_idx));
    }
    frames
}

/// Cut a payload into split frames for the given MTU (reliable and order
/// indices zero).
pub fn split_into_frames(body: &[u8], mtu: u16, split_id: u16, reliability: Reliability, ch: u8) -> (r: Vec<Frame>)
    ensures
        ({
            let chunk = split_chunk_size(mtu);
            let n = r@.len();
            &&& concat_bodies(frame_views(r@)) == body@
            &&& (body@.len() == 0 ==> n == 0)
            &&& (body@.len() > 0 ==> (n - 1) * chunk < body@.len() <= n * chunk)
            &&& forall|i: int| #![trigger r@[i]] 0 <= i < n ==> {
                let f = r@[i]@;
                &&& f.reliability == reliability
                &&& f.is_split
                &&& f.reliable_index == Some(0u32)
                &&& f.sequence_index is None
                &&& f.order_index == Some(0u32)
                &&& f.order_channel == ch
                &&& f.split_count == Some(n as u32)
                &&& f.split_id == Some(split_id)
                &&& f.split_index == Some(i as u32)
                &&& f.body == body@.subrange(i * chunk, if (i + 1) * chunk < body@.len() { (i + 1) * chunk } else { body@.len() as int })
            }
        }),
{
    split_payload(body, mtu, split_id, reliability, ch, 0, 0)
}

} // verus!