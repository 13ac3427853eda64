//! Generic Bedrock packet reader/writer helpers.
//!
//! Bedrock's game packets (inside a batch) start with a single header byte
//! (the packet ID) followed by payload. Most fields are little-endian or
//! VarInt-encoded.

use vstd::prelude::*;
use vstd::string::StringSliceAdditionalSpecFns;
use crate::varint::{read_var_u32, write_var_u32, var_decode, var_encoding, VarStatus, pow2_32};
use crate::bytes::append_bytes;

verus! {

#[verifier::external_type_specification]
#[verifier::external_body]
pub struct ExFromUtf8Error(std::string::FromUtf8Error);

#[derive(Debug)]
pub enum CodecError {
    TooShort,
    VarInt,
    StringTooLong,
    Other(String),
}

/// `String::from_utf8`: the string when the bytes are valid UTF-8, the
/// error otherwise; as std documents it.
#[verifier::external_body]
pub(crate) fn utf8_string(bytes: Vec<u8>) -> (r: Result<String, std::string::FromUtf8Error>)
    ensures
        r is Ok <==> vstd::utf8::valid_utf8(bytes@),
        r matches Ok(s) ==> s@ == vstd::utf8::decode_utf8(bytes@),
{
    String::from_utf8(bytes)
}

/// Read a packet header from a raw packet body: returns the packet ID
/// and advances `pos` past the id byte.
pub fn read_packet_header(buf: &[u8], pos: &mut usize) -> (r: Result<u8, CodecError>)
    ensures
        *old(pos) < buf@.len() ==> r == Ok::<u8, CodecError>(buf@[*old(pos) as int]) && *final(pos) == *old(pos) + 1,
        *old(pos) >= buf@.len() ==> r == Err::<u8, CodecError>(CodecError::TooShort) && *final(pos) == *old(pos),
{
    if *pos >= buf.len() {
        return Err(CodecError::TooShort);
    }
    let id = buf[*pos];
    *pos = *pos + 1;
    Ok(id)
}

/// A packet on the wire: its id byte, then its payload.
pub open spec fn packet_bytes(id: u8, payload: Seq<u8>) -> Seq<u8> {
    seq![id] + payload
}

/// Write a packet with the given id and payload bytes (just concatenates).
pub fn write_packet(id: u8, payload: &[u8]) -> (r: Vec<u8>)
    ensures
        r@ == packet_bytes(id, payload@),
{
    let mut out = Vec::new();
    out.push(id);
    append_bytes(&mut out, payload);
    out
}

/// A string on the wire: its UTF-8 byte count as a VarInt, then the bytes.
pub open spec fn string_bytes(b: Seq<u8>) -> Seq<u8> {
    var_encoding((b.len() % pow2_32()) as nat) + b
}

/// Read a Bedrock-style VarInt-length-prefixed UTF-8 string.
pub fn read_string(buf: &[u8], pos: &mut usize) -> (r: Result<String, CodecError>)
    ensures
        ({
            let d = var_decode(buf@, *old(pos) as int, 5);
            let start = *old(pos) + d.1;
            let len = d.2 % pow2_32();
            if d.0 != VarStatus::Done {
                r == Err::<String, CodecError>(CodecError::VarInt) && *final(pos) == start
            } else if start + len > buf@.len() {
                r == Err::<String, CodecError>(CodecError::TooShort) && *final(pos) == start
            } else {
                let bytes = buf@.subrange(start as int, start + len);
                &&& *final(pos) == start + len
                &&& (r is Ok <==> vstd::utf8::valid_utf8(bytes))
                &&& (r matches Ok(s) ==> s@ == vstd::utf8::decode_utf8(bytes))
                &&& (r is Err ==> r matches Err(CodecError::Other(_)))
            }
        }),
{
    let len = match read_var_u32(buf, pos) {
        Ok(v) => v as usize,
        Err(_) => {
            return Err(CodecError::VarInt);
        },
    };
    if *pos > buf.len() || len > buf.len() - *pos {
        return Err(CodecError::TooShort);
    }
    let bytes = vstd::slice::slice_to_vec(&buf[*pos..*pos + len]);
    *pos = *pos + len;
    match utf8_string(bytes) {
        Ok(s) => Ok(s),
        Err(e) => Err(CodecError::Other(e.to_string())),
    }
}

/// Write a Bedrock-style length-prefixed UTF-8 string.
pub fn write_string(buf: &mut Vec<u8>, s: &str)
    ensures
        final(buf)@ == old(buf)@ + string_bytes(s.spec_bytes()),
{
    let bytes = s.as_bytes();
    let n = bytes.len() as u64;
    let low = (n & 0xffff_ffff) as u32;
    assert(low as nat == n % 0x1_0000_0000) by (bit_vector)
        requires low == (n & 0xffff_ffff) as u32;
    write_var_u32(buf, low);
    append_bytes(buf, bytes);
}

/// Implemented by Bedrock packets that can encode themselves.
pub trait BedrockPacket {
    fn packet_id(&self) -> u8;

    fn encode(&self) -> Vec<u8>;
}

} // verus!
