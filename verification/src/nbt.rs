//! Bedrock little-endian NBT writer.
//!
//! Bedrock Edition writes Named Binary Tags in little-endian byte order
//! (unlike Java Edition). Only the tags the login and start-game payloads
//! need are written here.

use vstd::prelude::*;
use crate::bytes::{le_bytes, push_le, append_bytes};
use vstd::string::StringSliceAdditionalSpecFns;

verus! {

#[verifier::external_type_specification]
#[verifier::external_body]
pub struct ExIoError(std::io::Error);

/// Errors that can occur while (de)serializing NBT data.
#[derive(Debug)]
pub enum NbtError {
    UnexpectedEof,
    InvalidTagId(u8),
    VarIntTooLong,
    Io(std::io::Error),
    Other(String),
}

/// NBT tag identifiers (Bedrock uses the same IDs as Java NBT).
#[derive(Debug, Clone, Copy, PartialEq, Eq, Structural)]
pub enum TagId {
    End,
    Byte,
    Short,
    Int,
    Long,
    Float,
    Double,
    ByteArray,
    String,
    List,
    Compound,
    IntArray,
    LongArray,
}

impl TagId {
    /// The identifier byte of the tag.
    pub open spec fn spec_id(self) -> u8 {
        match self {
            TagId::End => 0,
            TagId::Byte => 1,
            TagId::Short => 2,
            TagId::Int => 3,
            TagId::Long => 4,
            TagId::Float => 5,
            TagId::Double => 6,
            TagId::ByteArray => 7,
            TagId::String => 8,
            TagId::List => 9,
            TagId::Compound => 10,
            TagId::IntArray => 11,
            TagId::LongArray => 12,
        }
    }

    /// The identifier byte of the tag.
    #[verifier::when_used_as_spec(spec_id)]
    pub fn id(self) -> (r: u8)
        ensures
            r == self.spec_id(),
    {
        match self {
            TagId::End => 0,
            TagId::Byte => 1,
            TagId::Short => 2,
            TagId::Int => 3,
            TagId::Long => 4,
            TagId::Float => 5,
            TagId::Double => 6,
            TagId::ByteArray => 7,
            TagId::String => 8,
            TagId::List => 9,
            TagId::Compound => 10,
            TagId::IntArray => 11,
            TagId::LongArray => 12,
        }
    }

    /// The tag with identifier `b`, or `InvalidTagId(b)` for bytes above 12.
    pub fn from_u8(b: u8) -> (r: Result<Self, NbtError>)
        ensures
            b <= 12 <==> r is Ok,
            r matches Ok(t) ==> t.spec_id() == b,
            b > 12 ==> r == Err::<Self, NbtError>(NbtError::InvalidTagId(b)),
    {
        match b {
            0 => Ok(Self::End),
            1 => Ok(Self::Byte),
            2 => Ok(Self::Short),
            3 => Ok(Self::Int),
            4 => Ok(Self::Long),
            5 => Ok(Self::Float),
            6 => Ok(Self::Double),
            7 => Ok(Self::ByteArray),
            8 => Ok(Self::String),
            9 => Ok(Self::List),
            10 => Ok(Self::Compound),
            11 => Ok(Self::IntArray),
            12 => Ok(Self::LongArray),
            other => Err(NbtError::InvalidTagId(other)),
        }
    }
}

/// The bytes `write_string` appends for a string whose UTF-8 bytes are `b`:
/// the length cut to 16 bits (taken modulo 65536), little-endian, then
/// that many bytes from the start.
pub open spec fn nbt_string(b: Seq<u8>) -> Seq<u8> {
    let len = b.len() % 0x10000;
    le_bytes(len, 2) + b.subrange(0, len as int)
}

/// A named field: tag byte, name, payload.
pub open spec fn nbt_field(tag: TagId, name: Seq<u8>, payload: Seq<u8>) -> Seq<u8> {
    seq![tag.spec_id()] + nbt_string(name) + payload
}

/// Minimal Bedrock (little-endian) NBT writer for building login/start-game
/// payloads.
#[derive(Debug)]
pub struct NbtWriter {
    buf: Vec<u8>,
}

impl View for NbtWriter {
    type V = Seq<u8>;

    closed spec fn view(&self) -> Seq<u8> {
        self.buf@
    }
}

impl Default for NbtWriter {
    fn default() -> (r: Self)
        ensures
            r@ == Seq::<u8>::empty(),
    {
        Self { buf: Vec::new() }
    }
}

impl NbtWriter {
    pub fn new() -> (r: Self)
        ensures
            r@ == Seq::<u8>::empty(),
    {
        Self { buf: Vec::new() }
    }

    pub fn into_inner(self) -> (r: Vec<u8>)
        ensures
            r@ == self@,
    {
        self.buf
    }

    pub fn as_bytes(&self) -> (r: &[u8])
        ensures
            r@ == self@,
    {
        self.buf.as_slice()
    }

    pub fn write_byte(&mut self, b: u8)
        ensures
            final(self)@ == old(self)@.push(b),
    {
        self.buf.push(b);
    }

    pub fn write_i16_le(&mut self, v: i16)
        ensures
            final(self)@ == old(self)@ + le_bytes(v as u16 as nat, 2),
    {
        push_le(&mut self.buf, v as u16 as u64, 2);
    }

    pub fn write_i32_le(&mut self, v: i32)
        ensures
            final(self)@ == old(self)@ + le_bytes(v as u32 as nat, 4),
    {
        push_le(&mut self.buf, v as u32 as u64, 4);
    }

    pub fn write_i64_le(&mut self, v: i64)
        ensures
            final(self)@ == old(self)@ + le_bytes(v as u64 as nat, 8),
    {
        push_le(&mut self.buf, v as u64, 8);
    }

    /// Write the 32 bits of a float, given as its IEEE-754 bit pattern.
    pub fn write_f32_bits_le(&mut self, bits: u32)
        ensures
            final(self)@ == old(self)@ + le_bytes(bits as nat, 4),
    {
        push_le(&mut self.buf, bits as u64, 4);
    }

    pub fn write_string(&mut self, s: &str)
        ensures
            final(self)@ == old(self)@ + nbt_string(s.spec_bytes()),
    {
        let bytes = s.as_bytes();
        let len: usize = bytes.len() % 0x10000;
        push_le(&mut self.buf, len as u64, 2);
        append_bytes(&mut self.buf, &bytes[0..len]);
        assert(self.buf@ =~= old(self)@ + nbt_string(s.spec_bytes()));
    }

    /// Write a root compound tag (id + empty name). Bedrock network NBT
    /// uses an empty root name, so `_name` is not written.
    pub fn write_compound_header(&mut self, _name: &str)
        ensures
            final(self)@ == old(self)@ + seq![TagId::Compound.spec_id()] + nbt_string(Seq::empty()),
    {
        self.write_byte(TagId::Compound.id());
        self.write_string("");
        proof {
            reveal_strlit("");
            assert(vstd::utf8::encode_utf8(""@) =~= Seq::<u8>::empty()) by {
                reveal_with_fuel(vstd::utf8::encode_utf8, 2);
            }
        }
        assert(final(self)@ =~= old(self)@ + seq![TagId::Compound.spec_id()] + nbt_string(Seq::empty()));
    }

    pub fn write_end(&mut self)
        ensures
            final(self)@ == old(self)@.push(TagId::End.spec_id()),
    {
        self.write_byte(TagId::End.id());
    }

    /// Write a named byte field inside a compound.
    pub fn write_byte_field(&mut self, name: &str, v: u8)
        ensures
            final(self)@ == old(self)@ + nbt_field(TagId::Byte, name.spec_bytes(), seq![v]),
    {
        self.write_byte(TagId::Byte.id());
        self.write_string(name);
        self.write_byte(v);
        assert(final(self)@ =~= old(self)@ + nbt_field(TagId::Byte, name.spec_bytes(), seq![v]));
    }

    /// Write a named int field inside a compound.
    pub fn write_int_field(&mut self, name: &str, v: i32)
        ensures
            final(self)@ == old(self)@ + nbt_field(TagId::Int, name.spec_bytes(), le_bytes(v as u32 as nat, 4)),
    {
        self.write_byte(TagId::Int.id());
        self.write_string(name);
        self.write_i32_le(v);
        assert(final(self)@ =~= old(self)@ + nbt_field(TagId::Int, name.spec_bytes(), le_bytes(v as u32 as nat, 4)));
    }

    /// Write a named long field inside a compound.
    pub fn write_long_field(&mut self, name: &str, v: i64)
        ensures
            final(self)@ == old(self)@ + nbt_field(TagId::Long, name.spec_bytes(), le_bytes(v as u64 as nat, 8)),
    {
        self.write_byte(TagId::Long.id());
        self.write_string(name);
        self.write_i64_le(v);
        assert(final(self)@ =~= old(self)@ + nbt_field(TagId::Long, name.spec_bytes(), le_bytes(v as u64 as nat, 8)));
    }

    /// Write a named string field inside a compound.
    pub fn write_string_field(&mut self, name: &str, v: &str)
        ensures
            final(self)@ == old(self)@ + nbt_field(TagId::String, name.spec_bytes(), nbt_string(v.spec_bytes())),
    {
        self.write_byte(TagId::String.id());
        self.write_string(name);
        self.write_string(v);
        assert(final(self)@ =~= old(self)@ + nbt_field(TagId::String, name.spec_bytes(), nbt_string(v.spec_bytes())));
    }

    /// Write a named float field inside a compound, the float given as its
    /// IEEE-754 bit pattern.
    pub fn write_float_bits_field(&mut self, name: &str, bits: u32)
        ensures
            final(self)@ == old(self)@ + nbt_field(TagId::Float, name.spec_bytes(), le_bytes(bits as nat, 4)),
    {
        self.write_byte(TagId::Float.id());
        self.write_string(name);
        self.write_f32_bits_le(bits);
        assert(final(self)@ =~= old(self)@ + nbt_field(TagId::Float, name.spec_bytes(), le_bytes(bits as nat, 4)));
    }
}

} // verus!
