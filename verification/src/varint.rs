//! Variable-length integer helpers used by Bedrock's network protocol.
//!
//! Unsigned values are written in little-endian groups of seven bits, the
//! high bit of each byte marking that another byte follows. Signed values
//! are first mapped to unsigned ones with ZigZag encoding.

use vstd::prelude::*;
use crate::nbt::NbtError;

verus! {

/// The byte sequence that encodes `v` as an unsigned VarInt.
pub open spec fn var_encoding(v: nat) -> Seq<u8>
    decreases v,
{
    if v < 128 {
        seq![v as u8]
    } else {
        seq![(v % 128 + 128) as u8] + var_encoding(v / 128)
    }
}

/// How a VarInt read starting at `pos` ends.
#[derive(PartialEq, Eq)]
pub enum VarStatus {
    Done,
    Eof,
    TooLong,
}

/// Reading a VarInt from `buf` at `pos`, allowing at most `budget` bytes:
/// the way the read ends, the number of bytes it consumes, and the value
/// of the seven-bit groups it read (exact, before any truncation).
pub open spec fn var_decode(buf: Seq<u8>, pos: int, budget: nat) -> (VarStatus, nat, nat)
    decreases budget,
{
    if pos < 0 || pos >= buf.len() {
        (VarStatus::Eof, 0, 0)
    } else if budget == 0 {
        (VarStatus::TooLong, 0, 0)
    } else if buf[pos] < 128 {
        (VarStatus::Done, 1, buf[pos] as nat)
    } else {
        let r = var_decode(buf, pos + 1, (budget - 1) as nat);
        (r.0, r.1 + 1, (buf[pos] - 128) as nat + 128 * r.2)
    }
}

pub open spec fn pow2_32() -> nat {
    0x1_0000_0000
}

pub open spec fn pow2_64() -> nat {
    0x1_0000_0000_0000_0000
}

/// ZigZag mapping of a signed 32-bit value to an unsigned one.
pub open spec fn zigzag32(v: int) -> int {
    if v >= 0 { 2 * v } else { -2 * v - 1 }
}

/// Inverse of ZigZag: the signed value whose ZigZag image is `u`.
pub open spec fn unzigzag(u: int) -> int {
    if u % 2 == 0 { u / 2 } else { -(u / 2) - 1 }
}

/// An encoding of a value below `128^k` has at most `k` bytes.
pub proof fn lemma_var_encoding_len(v: nat, k: nat, bound: int)
    requires
        v < bound,
        k >= 1,
        bound == vstd::arithmetic::power::pow(128, k),
    ensures
        var_encoding(v).len() <= k,
        var_encoding(v).len() >= 1,
    decreases v,
{
    vstd::arithmetic::power::lemma_pow_positive(128, k);
    if v >= 128 {
        assert(k > 1) by {
            if k == 1 {
                vstd::arithmetic::power::lemma_pow1(128);
            }
        }
        let nb = vstd::arithmetic::power::pow(128, (k - 1) as nat);
        vstd::arithmetic::power::lemma_pow_adds(128, 1, (k - 1) as nat);
        vstd::arithmetic::power::lemma_pow1(128);
        assert(v / 128 < nb) by (nonlinear_arith)
            requires v < bound, bound == 128 * nb;
        lemma_var_encoding_len(v / 128, (k - 1) as nat, nb);
    }
}

/// The bytes of an encoding are read back as the encoded value, whatever
/// surrounds them.
pub proof fn lemma_var_roundtrip(pre: Seq<u8>, v: nat, post: Seq<u8>, budget: nat)
    requires
        var_encoding(v).len() <= budget,
    ensures
        var_decode(pre + var_encoding(v) + post, pre.len() as int, budget)
            == (VarStatus::Done, var_encoding(v).len(), v),
    decreases v,
{
    let s = pre + var_encoding(v) + post;
    assert(s[pre.len() as int] == var_encoding(v)[0]);
    if v >= 128 {
        let pre2 = pre.push((v % 128 + 128) as u8);
        assert(pre + var_encoding(v) + post == pre2 + var_encoding(v / 128) + post);
        lemma_var_roundtrip(pre2, v / 128, post, (budget - 1) as nat);
    }
}

proof fn lemma_low7(x: u64)
    ensures
        x & 0x7f == x % 128,
        x >> 7 == x / 128,
        ((x & 0x7f) | 0x80) == x % 128 + 128,
{
    assert(x & 0x7f == x % 128) by (bit_vector);
    assert(x >> 7 == x / 128) by (bit_vector);
    assert(((x & 0x7f) | 0x80) == x % 128 + 128) by (bit_vector);
}

/// Append the unsigned VarInt encoding of a 64-bit value.
fn write_var(buf: &mut Vec<u8>, value: u64)
    ensures
        final(buf)@ == old(buf)@ + var_encoding(value as nat),
{
    let mut value = value;
    let ghost orig = value;
    loop
        invariant_except_break
            buf@ + var_encoding(value as nat) == old(buf)@ + var_encoding(orig as nat),
        ensures
            buf@ == old(buf)@ + var_encoding(orig as nat),
        decreases value,
    {
        proof {
            lemma_low7(value);
        }
        let low = value & 0x7f;
        let rest = value >> 7;
        if rest == 0 {
            buf.push(low as u8);
            assert(buf@ == old(buf)@ + var_encoding(orig as nat));
            break;
        } else {
            buf.push((low | 0x80) as u8);
            proof {
                assert(var_encoding(value as nat) == seq![(value % 128 + 128) as u8] + var_encoding(
                    rest as nat,
                ));
                assert(buf@ + var_encoding(rest as nat) == old(buf)@ + var_encoding(orig as nat));
            }
            value = rest;
        }
    }
}

/// Write an unsigned VarInt.
pub fn write_var_u32(buf: &mut Vec<u8>, value: u32)
    ensures
        final(buf)@ == old(buf)@ + var_encoding(value as nat),
{
    write_var(buf, value as u64);
}

/// Write an unsigned VarLong.
pub fn write_var_u64(buf: &mut Vec<u8>, value: u64)
    ensures
        final(buf)@ == old(buf)@ + var_encoding(value as nat),
{
    write_var(buf, value);
}


/// The value of the groups read never reaches `128^budget`.
pub proof fn lemma_var_decode_bound(buf: Seq<u8>, pos: int, budget: nat)
    ensures
        var_decode(buf, pos, budget).2 < vstd::arithmetic::power::pow(128, budget),
        var_decode(buf, pos, budget).1 <= budget || var_decode(buf, pos, budget).0 == VarStatus::Eof,
        var_decode(buf, pos, budget).0 == VarStatus::Eof ==> pos + var_decode(buf, pos, budget).1
            >= buf.len() || pos < 0,
    decreases budget,
{
    vstd::arithmetic::power::lemma_pow_positive(128, budget);
    if pos < 0 || pos >= buf.len() {
    } else if budget == 0 {
    } else if buf[pos] < 128 {
        vstd::arithmetic::power::lemma_pow_adds(128, 1, (budget - 1) as nat);
        vstd::arithmetic::power::lemma_pow1(128);
        vstd::arithmetic::power::lemma_pow_positive(128, (budget - 1) as nat);
        assert(128 * vstd::arithmetic::power::pow(128, (budget - 1) as nat) >= 128) by (nonlinear_arith)
            requires vstd::arithmetic::power::pow(128, (budget - 1) as nat) > 0;
    } else {
        let b1 = (budget - 1) as nat;
        lemma_var_decode_bound(buf, pos + 1, b1);
        let r = var_decode(buf, pos + 1, b1);
        let p = vstd::arithmetic::power::pow(128, b1);
        vstd::arithmetic::power::lemma_pow_adds(128, 1, b1);
        vstd::arithmetic::power::lemma_pow1(128);
        assert((buf[pos] - 128) + 128 * r.2 < 128 * p) by (nonlinear_arith)
            requires r.2 < p, 0 <= buf[pos] - 128 < 128;
    }
}

/// A completed read takes at least one byte, all within the buffer.
pub proof fn lemma_var_decode_within(buf: Seq<u8>, pos: int, budget: nat)
    ensures
        var_decode(buf, pos, budget).0 == VarStatus::Done ==> 1 <= var_decode(buf, pos, budget).1
            && pos + var_decode(buf, pos, budget).1 <= buf.len() && pos >= 0,
    decreases budget,
{
    if pos >= 0 && pos < buf.len() && budget > 0 && buf[pos] >= 128 {
        lemma_var_decode_within(buf, pos + 1, (budget - 1) as nat);
    }
}

proof fn lemma_join7(x: u8, rest: u64)
    ensures
        ((x & 0x7f) as u64) | (rest << 7) == (((x & 0x7f) as int + 128 * (rest as int))
            % 0x1_0000_0000_0000_0000),
        x & 0x7f == x - 128 || x < 128,
        x < 128 ==> x & 0x80 == 0,
        x >= 128 ==> x & 0x80 != 0,
{
    assert(((x & 0x7f) as u64) | (rest << 7) == (((x & 0x7f) as int + 128 * (rest as int))
        % 0x1_0000_0000_0000_0000)) by (bit_vector);
    assert(x & 0x7f == x - 128 || x < 128) by (bit_vector);
    assert(x < 128 ==> x & 0x80 == 0) by (bit_vector);
    assert(x >= 128 ==> x & 0x80 != 0) by (bit_vector);
}

fn read_var(buf: &[u8], pos: &mut usize, budget: u32) -> (r: Result<u64, NbtError>)
    ensures
        *final(pos) == *old(pos) + var_decode(buf@, *old(pos) as int, budget as nat).1,
        ({
            let d = var_decode(buf@, *old(pos) as int, budget as nat);
            match d.0 {
                VarStatus::Done => r == Ok::<u64, NbtError>((d.2 % pow2_64()) as u64),
                VarStatus::Eof => r == Err::<u64, NbtError>(NbtError::UnexpectedEof),
                VarStatus::TooLong => r == Err::<u64, NbtError>(NbtError::VarIntTooLong),
            }
        }),
    decreases budget,
{
    if *pos >= buf.len() {
        return Err(NbtError::UnexpectedEof);
    }
    if budget == 0 {
        return Err(NbtError::VarIntTooLong);
    }
    let b = buf[*pos];
    *pos = *pos + 1;
    proof {
        lemma_join7(b, 0);
    }
    if b & 0x80 == 0 {
        return Ok(b as u64);
    }
    let ghost p1 = *pos;
    let rest = read_var(buf, pos, budget - 1)?;
    proof {
        let d = var_decode(buf@, p1 as int, (budget - 1) as nat);
        lemma_join7(b, rest);
        let g = (b & 0x7f) as int;
        let m = pow2_64() as int;
        vstd::arithmetic::div_mod::lemma_mul_mod_noop_right(128, d.2 as int, m);
        vstd::arithmetic::div_mod::lemma_add_mod_noop(g, (128 * (d.2 % pow2_64())) as int, m);
        vstd::arithmetic::div_mod::lemma_add_mod_noop(g, (128 * d.2) as int, m);
        vstd::arithmetic::div_mod::lemma_small_mod(g as nat, m as nat);
        vstd::arithmetic::div_mod::lemma_mod_twice((128 * d.2) as int, m);
    }
    Ok(((b & 0x7f) as u64) | (rest << 7))
}

proof fn lemma_trunc32(x: u64)
    ensures
        (x as u32) as int == (x as int) % 0x1_0000_0000,
{
    assert((x as u32) as int == (x as int) % 0x1_0000_0000) by (bit_vector);
}

pub proof fn lemma_pow128_5()
    ensures
        vstd::arithmetic::power::pow(128, 5) == 0x8_0000_0000,
        vstd::arithmetic::power::pow(128, 10) == 0x40_0000_0000_0000_0000,
{
    reveal_with_fuel(vstd::arithmetic::power::pow, 11);
}

/// Read an unsigned VarInt (up to 5 bytes for u32).
pub fn read_var_u32(buf: &[u8], pos: &mut usize) -> (r: Result<u32, NbtError>)
    ensures
        *final(pos) == *old(pos) + var_decode(buf@, *old(pos) as int, 5).1,
        ({
            let d = var_decode(buf@, *old(pos) as int, 5);
            match d.0 {
                VarStatus::Done => r == Ok::<u32, NbtError>((d.2 % pow2_32()) as u32),
                VarStatus::Eof => r == Err::<u32, NbtError>(NbtError::UnexpectedEof),
                VarStatus::TooLong => r == Err::<u32, NbtError>(NbtError::VarIntTooLong),
            }
        }),
{
    let ghost p0 = *pos;
    let v = read_var(buf, pos, 5)?;
    proof {
        let d = var_decode(buf@, p0 as int, 5);
        lemma_var_decode_bound(buf@, p0 as int, 5);
        lemma_pow128_5();
        vstd::arithmetic::div_mod::lemma_small_mod(d.2, pow2_64());
        lemma_trunc32(v);
    }
    Ok(v as u32)
}

/// Read an unsigned VarLong (up to 10 bytes for u64).
pub fn read_var_u64(buf: &[u8], pos: &mut usize) -> (r: Result<u64, NbtError>)
    ensures
        *final(pos) == *old(pos) + var_decode(buf@, *old(pos) as int, 10).1,
        ({
            let d = var_decode(buf@, *old(pos) as int, 10);
            match d.0 {
                VarStatus::Done => r == Ok::<u64, NbtError>((d.2 % pow2_64()) as u64),
                VarStatus::Eof => r == Err::<u64, NbtError>(NbtError::UnexpectedEof),
                VarStatus::TooLong => r == Err::<u64, NbtError>(NbtError::VarIntTooLong),
            }
        }),
{
    read_var(buf, pos, 10)
}

fn zigzag_encode_i32(v: i32) -> (r: u32)
    ensures
        r as int == zigzag32(v as int),
{
    assert(((v << 1u32) ^ (v >> 31u32)) as u32 as int == if v >= 0 {
        2 * (v as int)
    } else {
        -2 * (v as int) - 1
    }) by (bit_vector);
    ((v << 1u32) ^ (v >> 31u32)) as u32
}

fn zigzag_decode_i32(v: u32) -> (r: i32)
    ensures
        r as int == unzigzag(v as int),
{
    let h: i32 = (v >> 1u32) as i32;
    let m: i32 = if v & 1u32 == 1u32 { -1i32 } else { 0i32 };
    assert((h ^ m) as int == if v % 2 == 0 {
        (v / 2) as int
    } else {
        -((v / 2) as int) - 1
    }) by (bit_vector)
        requires
            h == (v >> 1u32) as i32,
            m == if v & 1u32 == 1u32 { -1i32 } else { 0i32 },
    ;
    h ^ m
}

fn zigzag_encode_i64(v: i64) -> (r: u64)
    ensures
        r as int == zigzag32(v as int),
{
    assert(((v << 1u64) ^ (v >> 63u64)) as u64 as int == if v >= 0 {
        2 * (v as int)
    } else {
        -2 * (v as int) - 1
    }) by (bit_vector);
    ((v << 1u64) ^ (v >> 63u64)) as u64
}

fn zigzag_decode_i64(v: u64) -> (r: i64)
    ensures
        r as int == unzigzag(v as int),
{
    let h: i64 = (v >> 1u64) as i64;
    let m: i64 = if v & 1u64 == 1u64 { -1i64 } else { 0i64 };
    assert((h ^ m) as int == if v % 2 == 0 {
        (v / 2) as int
    } else {
        -((v / 2) as int) - 1
    }) by (bit_vector)
        requires
            h == (v >> 1u64) as i64,
            m == if v & 1u64 == 1u64 { -1i64 } else { 0i64 },
    ;
    h ^ m
}


/// Read a ZigZag-encoded signed VarInt.
pub fn read_var_i32(buf: &[u8], pos: &mut usize) -> (r: Result<i32, NbtError>)
    ensures
        *final(pos) == *old(pos) + var_decode(buf@, *old(pos) as int, 5).1,
        ({
            let d = var_decode(buf@, *old(pos) as int, 5);
            match d.0 {
                VarStatus::Done => r == Ok::<i32, NbtError>(unzigzag((d.2 % pow2_32()) as int) as i32),
                VarStatus::Eof => r == Err::<i32, NbtError>(NbtError::UnexpectedEof),
                VarStatus::TooLong => r == Err::<i32, NbtError>(NbtError::VarIntTooLong),
            }
        }),
{
    let raw = read_var_u32(buf, pos)?;
    Ok(zigzag_decode_i32(raw))
}

/// Read a ZigZag-encoded signed VarLong.
pub fn read_var_i64(buf: &[u8], pos: &mut usize) -> (r: Result<i64, NbtError>)
    ensures
        *final(pos) == *old(pos) + var_decode(buf@, *old(pos) as int, 10).1,
        ({
            let d = var_decode(buf@, *old(pos) as int, 10);
            match d.0 {
                VarStatus::Done => r == Ok::<i64, NbtError>(unzigzag((d.2 % pow2_64()) as int) as i64),
                VarStatus::Eof => r == Err::<i64, NbtError>(NbtError::UnexpectedEof),
                VarStatus::TooLong => r == Err::<i64, NbtError>(NbtError::VarIntTooLong),
            }
        }),
{
    let raw = read_var_u64(buf, pos)?;
    Ok(zigzag_decode_i64(raw))
}

/// Write a ZigZag-encoded signed VarInt.
pub fn write_var_i32(buf: &mut Vec<u8>, value: i32)
    ensures
        final(buf)@ == old(buf)@ + var_encoding(zigzag32(value as int) as nat),
{
    write_var_u32(buf, zigzag_encode_i32(value));
}

/// Write a ZigZag-encoded signed VarLong.
pub fn write_var_i64(buf: &mut Vec<u8>, value: i64)
    ensures
        final(buf)@ == old(buf)@ + var_encoding(zigzag32(value as int) as nat),
{
    write_var_u64(buf, zigzag_encode_i64(value));
}

/// Every 32-bit value fits the five bytes a 32-bit read allows.
pub proof fn lemma_var_u32_len(v: u32)
    ensures
        1 <= var_encoding(v as nat).len() <= 5,
{
    lemma_pow128_5();
    lemma_var_encoding_len(v as nat, 5, vstd::arithmetic::power::pow(128, 5));
}

/// Every 64-bit value fits the ten bytes a 64-bit read allows.
pub proof fn lemma_var_u64_len(v: u64)
    ensures
        1 <= var_encoding(v as nat).len() <= 10,
{
    lemma_pow128_5();
    lemma_var_encoding_len(v as nat, 10, vstd::arithmetic::power::pow(128, 10));
}

/// Reading back a written unsigned VarInt gives the value and consumes
/// exactly its bytes, whatever precedes or follows them.
pub proof fn law_var_u32_roundtrip(pre: Seq<u8>, v: u32, post: Seq<u8>)
    ensures
        ({
            let d = var_decode(pre + var_encoding(v as nat) + post, pre.len() as int, 5);
            &&& d.0 == VarStatus::Done
            &&& d.1 == var_encoding(v as nat).len()
            &&& d.2 % pow2_32() == v
        }),
{
    lemma_var_u32_len(v);
    lemma_var_roundtrip(pre, v as nat, post, 5);
    vstd::arithmetic::div_mod::lemma_small_mod(v as nat, pow2_32());
}

/// Reading back a written unsigned VarLong gives the value and consumes
/// exactly its bytes, whatever precedes or follows them.
pub proof fn law_var_u64_roundtrip(pre: Seq<u8>, v: u64, post: Seq<u8>)
    ensures
        ({
            let d = var_decode(pre + var_encoding(v as nat) + post, pre.len() as int, 10);
            &&& d.0 == VarStatus::Done
            &&& d.1 == var_encoding(v as nat).len()
            &&& d.2 % pow2_64() == v
        }),
{
    lemma_var_u64_len(v);
    lemma_var_roundtrip(pre, v as nat, post, 10);
    vstd::arithmetic::div_mod::lemma_small_mod(v as nat, pow2_64());
}

/// ZigZag is undone by its inverse.
pub proof fn law_zigzag_inverse(v: int)
    ensures
        unzigzag(zigzag32(v)) == v,
        zigzag32(v) >= 0,
{
}

/// ZigZag pairs the 32-bit signed values one-to-one with the 32-bit
/// unsigned ones (0, -1, 1, -2, ... go to 0, 1, 2, 3, ...): each
/// direction stays in range and undoes the other.
pub proof fn law_zigzag_i32(v: i32, u: u32)
    ensures
        zigzag32(v as int) == (if v >= 0 { 2 * v } else { -2 * v - 1 }),
        0 <= zigzag32(v as int) <= u32::MAX,
        unzigzag(zigzag32(v as int)) == v,
        i32::MIN <= unzigzag(u as int) <= i32::MAX,
        zigzag32(unzigzag(u as int)) == u,
{
}

/// An unsigned VarInt has one byte per seven-bit group of the value:
/// exactly `k` bytes when `128^(k-1) <= v < 128^k`, and one byte for
/// `v < 128`.
pub proof fn law_var_encoding_len(v: nat, k: nat)
    requires
        k >= 1,
        v < vstd::arithmetic::power::pow(128, k),
        k == 1 || vstd::arithmetic::power::pow(128, (k - 1) as nat) <= v,
    ensures
        var_encoding(v).len() == k,
    decreases k,
{
    let p = vstd::arithmetic::power::pow(128, (k - 1) as nat);
    vstd::arithmetic::power::lemma_pow_adds(128, 1, (k - 1) as nat);
    vstd::arithmetic::power::lemma_pow1(128);
    assert(vstd::arithmetic::power::pow(128, k) == 128 * p);
    vstd::arithmetic::power::lemma_pow_positive(128, (k - 1) as nat);
    if k == 1 {
        vstd::arithmetic::power::lemma_pow0(128);
        assert(p == 1);
    } else {
        let q = vstd::arithmetic::power::pow(128, (k - 2) as nat);
        vstd::arithmetic::power::lemma_pow_adds(128, 1, (k - 2) as nat);
        assert(p == 128 * q);
        vstd::arithmetic::power::lemma_pow_positive(128, (k - 2) as nat);
        assert(v >= 128);
        assert(v / 128 < p) by (nonlinear_arith)
            requires
                v < 128 * p,
        ;
        assert(k - 1 == 1 || q <= v / 128) by (nonlinear_arith)
            requires
                p <= v,
                p == 128 * q,
        ;
        law_var_encoding_len(v / 128, (k - 1) as nat);
    }
}

/// Reading back a written signed VarInt gives the value.
pub proof fn law_var_i32_roundtrip(pre: Seq<u8>, v: i32, post: Seq<u8>)
    ensures
        ({
            let z = zigzag32(v as int) as nat;
            let d = var_decode(pre + var_encoding(z) + post, pre.len() as int, 5);
            &&& d.0 == VarStatus::Done
            &&& d.1 == var_encoding(z).len()
            &&& unzigzag((d.2 % pow2_32()) as int) == v
        }),
{
    let z = zigzag32(v as int);
    assert(0 <= z < pow2_32());
    law_var_u32_roundtrip(pre, z as u32, post);
}

/// Reading back a written signed VarLong gives the value.
pub proof fn law_var_i64_roundtrip(pre: Seq<u8>, v: i64, post: Seq<u8>)
    ensures
        ({
            let z = zigzag32(v as int) as nat;
            let d = var_decode(pre + var_encoding(z) + post, pre.len() as int, 10);
            &&& d.0 == VarStatus::Done
            &&& d.1 == var_encoding(z).len()
            &&& unzigzag((d.2 % pow2_64()) as int) == v
        }),
{
    let z = zigzag32(v as int);
    assert(0 <= z < pow2_64());
    law_var_u64_roundtrip(pre, z as u64, post);
}

} // verus!
