//! Block interaction packet parsing and validation helpers.
//!
//! Minimal decoders for BREAK_BLOCK (0x14) and PLACE_BLOCK (0x16) payloads,
//! and the checks a break or place must pass.

use vstd::prelude::*;
use crate::varint::{read_var_i32, read_var_u32, write_var_i32, write_var_u32, var_decode, var_encoding, VarStatus, pow2_32, unzigzag, zigzag32};
use crate::codec::{write_packet, packet_bytes};
use crate::packet_id;
use crate::text::{owned, push_str, push_decimal, decimal};

verus! {

/// Parsed result from a BREAK_BLOCK packet.
#[derive(Debug, Clone, Copy, PartialEq, Eq, Structural)]
pub struct BreakBlockInfo {
    /// Block position in world coordinates.
    pub x: i32,
    pub y: i32,
    pub z: i32,
    /// Which face of the block was broken (optional).
    pub face: Option<i32>,
}

/// Parsed result from a PLACE_BLOCK packet.
#[derive(Debug, Clone, Copy, PartialEq, Eq, Structural)]
pub struct PlaceBlockInfo {
    /// Block position in world coordinates.
    pub x: i32,
    pub y: i32,
    pub z: i32,
    /// Which face of the adjacent block the new block was placed against.
    pub face: Option<i32>,
    /// Runtime block ID of the block being placed.
    pub runtime_id: Option<u32>,
}

/// A signed VarInt read at `pos`: its value when the read completes, and
/// the bytes the read consumes in any case.
pub open spec fn var_i32_at(s: Seq<u8>, pos: int) -> (Option<i32>, nat) {
    let d = var_decode(s, pos, 5);
    (if d.0 == VarStatus::Done { Some(unzigzag((d.2 % pow2_32()) as int) as i32) } else { None }, d.1)
}

/// An unsigned VarInt read at `pos`, as above.
pub open spec fn var_u32_at(s: Seq<u8>, pos: int) -> (Option<u32>, nat) {
    let d = var_decode(s, pos, 5);
    (if d.0 == VarStatus::Done { Some((d.2 % pow2_32()) as u32) } else { None }, d.1)
}

/// A BREAK_BLOCK payload: three signed VarInts for the position, then a
/// face when bytes remain and they form a complete VarInt.
pub open spec fn parse_break_spec(s: Seq<u8>) -> Option<BreakBlockInfo> {
    let a = var_i32_at(s, 0);
    let b = var_i32_at(s, a.1 as int);
    let c = var_i32_at(s, (a.1 + b.1) as int);
    let p3 = a.1 + b.1 + c.1;
    match (a.0, b.0, c.0) {
        (Some(x), Some(y), Some(z)) => Some(BreakBlockInfo {
            x,
            y,
            z,
            face: if p3 < s.len() { var_i32_at(s, p3 as int).0 } else { None },
        }),
        _ => None,
    }
}

/// A PLACE_BLOCK payload: three signed VarInts for the position, then a
/// face and a runtime id, each present when its VarInt reads completely.
pub open spec fn parse_place_spec(s: Seq<u8>) -> Option<PlaceBlockInfo> {
    let a = var_i32_at(s, 0);
    let b = var_i32_at(s, a.1 as int);
    let c = var_i32_at(s, (a.1 + b.1) as int);
    let p3 = a.1 + b.1 + c.1;
    let f = var_i32_at(s, p3 as int);
    let rid = var_u32_at(s, (p3 + f.1) as int);
    match (a.0, b.0, c.0) {
        (Some(x), Some(y), Some(z)) => Some(PlaceBlockInfo { x, y, z, face: f.0, runtime_id: rid.0 }),
        _ => None,
    }
}

/// Try to parse a BREAK_BLOCK (0x14) payload.
///
/// Assumes the format: varint x, varint y, varint z, [optional varint face].
/// Returns None if the payload is too short or malformed.
pub fn parse_break_block(body: &[u8]) -> (r: Option<BreakBlockInfo>)
    ensures
        r == parse_break_spec(body@),
{
    let mut pos: usize = 0;
    let x = match read_var_i32(body, &mut pos) { Ok(v) => v, Err(_) => { return None; } };
    let y = match read_var_i32(body, &mut pos) { Ok(v) => v, Err(_) => { return None; } };
    let z = match read_var_i32(body, &mut pos) { Ok(v) => v, Err(_) => { return None; } };
    let face = if pos < body.len() {
        let mut face_pos = pos;
        match read_var_i32(body, &mut face_pos) { Ok(v) => Some(v), Err(_) => None }
    } else {
        None
    };
    Some(BreakBlockInfo { x, y, z, face })
}

/// Try to parse a PLACE_BLOCK (0x16) payload.
///
/// Assumes: varint x, varint y, varint z, [optional varint face],
/// [optional runtime_id]. Returns None on too-short payload.
pub fn parse_place_block(body: &[u8]) -> (r: Option<PlaceBlockInfo>)
    ensures
        r == parse_place_spec(body@),
{
    let mut pos: usize = 0;
    let x = match read_var_i32(body, &mut pos) { Ok(v) => v, Err(_) => { return None; } };
    let y = match read_var_i32(body, &mut pos) { Ok(v) => v, Err(_) => { return None; } };
    let z = match read_var_i32(body, &mut pos) { Ok(v) => v, Err(_) => { return None; } };
    let face = match read_var_i32(body, &mut pos) { Ok(v) => Some(v), Err(_) => None };
    let runtime_id = match read_var_u32(body, &mut pos) { Ok(v) => Some(v), Err(_) => None };
    Some(PlaceBlockInfo { x, y, z, face, runtime_id })
}

/// The message for a block height outside the world.
pub open spec fn out_of_bounds_message(y: i32) -> Seq<char> {
    "Block Y "@ + decimal(y as int) + " out of world bounds (0-255)"@
}

fn out_of_bounds(y: i32) -> (r: String)
    ensures
        r@ == out_of_bounds_message(y),
{
    let mut s = owned("Block Y ");
    push_decimal(&mut s, y as i64);
    push_str(&mut s, " out of world bounds (0-255)");
    s
}

/// Basic validation rules for a block break action: the block's Y must be
/// within 0..=255, and it must not be air.
pub fn validate_break(x: i32, y: i32, z: i32, is_air: bool) -> (r: Result<(), String>)
    ensures
        (y < 0 || y >= 256) ==> (r matches Err(m) && m@ == out_of_bounds_message(y)),
        0 <= y < 256 && is_air ==> (r matches Err(m) && m@ == "Cannot break air"@),
        0 <= y < 256 && !is_air ==> r is Ok,
{
    if y < 0 || y >= 256 {
        return Err(out_of_bounds(y));
    }
    if is_air {
        return Err(owned("Cannot break air"));
    }
    Ok(())
}

/// The UpdateBlocks payload for one block: position, runtime id, flags 0.
pub open spec fn update_block_payload(x: i32, y: i32, z: i32, runtime_id: u32) -> Seq<u8> {
    var_encoding(zigzag32(x as int) as nat) + var_encoding(zigzag32(y as int) as nat) + var_encoding(
        zigzag32(z as int) as nat,
    ) + var_encoding(runtime_id as nat) + var_encoding(0)
}

/// Encode an UpdateBlocks (0x15) packet for a single block change.
pub fn encode_update_block(x: i32, y: i32, z: i32, runtime_id: u32) -> (r: Vec<u8>)
    ensures
        r@ == packet_bytes(packet_id::UPDATE_BLOCKS, update_block_payload(x, y, z, runtime_id)),
{
    let mut p = Vec::new();
    write_var_i32(&mut p, x);
    write_var_i32(&mut p, y);
    write_var_i32(&mut p, z);
    write_var_u32(&mut p, runtime_id);
    write_var_u32(&mut p, 0);
    assert(p@ =~= update_block_payload(x, y, z, runtime_id));
    write_packet(packet_id::UPDATE_BLOCKS, p.as_slice())
}

/// Basic validation rules for a block place action: the Y must be within
/// 0..=255, the target must be air, and a runtime id must be given.
pub fn validate_place(x: i32, y: i32, z: i32, is_air: bool, runtime_id: Option<u32>) -> (r: Result<(), String>)
    ensures
        (y < 0 || y >= 256) ==> (r matches Err(m) && m@ == out_of_bounds_message(y)),
        0 <= y < 256 && !is_air ==> (r matches Err(m) && m@ == "Target position already occupied by a block"@),
        0 <= y < 256 && is_air && runtime_id is None ==> (r matches Err(m) && m@ == "No block runtime ID provided"@),
        0 <= y < 256 && is_air && runtime_id is Some ==> r is Ok,
{
    if y < 0 || y >= 256 {
        return Err(out_of_bounds(y));
    }
    if !is_air {
        return Err(owned("Target position already occupied by a block"));
    }
    if runtime_id.is_none() {
        return Err(owned("No block runtime ID provided"));
    }
    Ok(())
}

} // verus!
