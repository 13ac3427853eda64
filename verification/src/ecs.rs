//! Entity components for game objects kept in a `hecs` world: block
//! positions and types, item stacks and the player's network state.

use vstd::prelude::*;
use hecs::World as EntityWorld;

verus! {

/// The `hecs` entity store, carried through as an opaque value.
#[verifier::external_type_specification]
#[verifier::external_body]
pub struct ExHecsWorld(EntityWorld);

/// Player network state.
#[derive(Debug, Clone, Copy, PartialEq, Eq, Structural)]
pub enum NetworkState {
    Connecting,
    LoggingIn,
    Playing,
    Disconnected,
}

impl Default for NetworkState {
    fn default() -> (r: Self)
        ensures
            r == NetworkState::Connecting,
    {
        NetworkState::Connecting
    }
}

/// Block position component.
#[derive(Debug, Clone, Copy, PartialEq, Eq, Structural, Hash)]
pub struct BlockPosition {
    pub x: i32,
    pub y: i32,
    pub z: i32,
}

impl BlockPosition {
    pub fn new(x: i32, y: i32, z: i32) -> (r: Self)
        ensures
            r == (BlockPosition { x, y, z }),
    {
        BlockPosition { x, y, z }
    }

    /// The chunk column: x and z divided by 16, rounding down.
    pub fn chunk_coords(&self) -> (r: (i32, i32))
        ensures
            r.0 == self.x as int / 16,
            r.1 == self.z as int / 16,
    {
        let x = self.x;
        let z = self.z;
        proof {
            assert((x >> 4i32) as int == (x as int) / 16) by (bit_vector);
            assert((z >> 4i32) as int == (z as int) / 16) by (bit_vector);
        }
        (x >> 4, z >> 4)
    }

    /// The position within the column: x and z modulo 16, y modulo 256.
    pub fn local_coords(&self) -> (r: (u8, u8, u8))
        ensures
            r.0 == self.x as int % 16,
            r.1 == self.y as int % 256,
            r.2 == self.z as int % 16,
    {
        let x = self.x;
        let y = self.y;
        let z = self.z;
        proof {
            assert(((x & 0xF) as u8) as int == (x as int) % 16) by (bit_vector);
            assert(((y & 0xFF) as u8) as int == (y as int) % 256) by (bit_vector);
            assert(((z & 0xF) as u8) as int == (z as int) % 16) by (bit_vector);
        }
        ((x & 0xF) as u8, (y & 0xFF) as u8, (z & 0xF) as u8)
    }
}

/// Block type component.
#[derive(Debug, Clone, Copy)]
pub struct BlockType {
    pub runtime_id: u32,
    pub name: &'static str,
}

impl BlockType {
    pub fn air() -> (r: Self)
        ensures
            r.runtime_id == 0,
            r.name@ == "air"@,
    {
        BlockType { runtime_id: 0, name: "air" }
    }

    pub fn stone() -> (r: Self)
        ensures
            r.runtime_id == 1,
            r.name@ == "stone"@,
    {
        BlockType { runtime_id: 1, name: "stone" }
    }

    pub fn grass() -> (r: Self)
        ensures
            r.runtime_id == 2,
            r.name@ == "grass"@,
    {
        BlockType { runtime_id: 2, name: "grass" }
    }

    pub fn dirt() -> (r: Self)
        ensures
            r.runtime_id == 3,
            r.name@ == "dirt"@,
    {
        BlockType { runtime_id: 3, name: "dirt" }
    }
}

/// Place a block in the entity world. Chunk data lives in the world
/// model, so the entity world is left as it is.
pub fn place_block(world: &mut EntityWorld, pos: BlockPosition, block_type: BlockType)
    ensures
        *final(world) == *old(world),
{
}

/// Item entity component.
#[derive(Debug, Clone, Copy)]
pub struct ItemComponent {
    pub item_id: u32,
    pub count: u8,
    pub pickup_delay: u16,
}

} // verus!
