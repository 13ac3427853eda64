//! World model: chunk columns of 16x16x16 subchunks holding runtime block
//! ids through palettes, terrain generation, and the world's chunk map.

use vstd::prelude::*;
use std::collections::HashMap;
use std::sync::Arc;
use crate::palette::{
    palette_with, palette_index, find_first, local_index, place, fill, palette_fold, visit_order,
    lemma_palette_with, zeros,
};
use crate::chunk::zero_blocks;

verus! {

broadcast use vstd::std_specs::hash::group_hash_axioms;

/// World-related errors.
#[derive(Debug)]
pub enum WorldError {
    ChunkOutOfBounds(i32, i32),
    BlockOutOfBounds(i32, i32, i32),
    Io(std::io::Error),
    Serialization(String),
}

/// Block runtime ID (Bedrock uses runtime IDs, not numeric block IDs).
pub type BlockRuntimeId = u32;

/// Block position in world coordinates.
#[derive(Debug, Clone, Copy, PartialEq, Eq, Structural, Hash)]
pub struct BlockPos {
    pub x: i32,
    pub y: i32,
    pub z: i32,
}

impl BlockPos {
    pub fn new(x: i32, y: i32, z: i32) -> (r: Self)
        ensures
            r == (BlockPos { x, y, z }),
    {
        BlockPos { x, y, z }
    }

    /// The chunk column holding this block: x and z divided by 16,
    /// rounding down.
    pub fn to_chunk(&self) -> (r: (i32, i32))
        ensures
            r.0 == self.x as int / 16,
            r.1 == self.z as int / 16,
    {
        (floor16(self.x), floor16(self.z))
    }

    /// Local block position within its chunk: x and z modulo 16, y
    /// modulo 256.
    pub fn local(&self) -> (r: (u8, u8, u8))
        ensures
            r.0 == self.x as int % 16,
            r.1 == self.y as int % 256,
            r.2 == self.z as int % 16,
    {
        let x = self.x;
        let y = self.y;
        let z = self.z;
        proof {
            assert(((x & 0xF) as u8) as int == (x as int) % 16) by (bit_vector);
            assert(((y & 0xFF) as u8) as int == (y as int) % 256) by (bit_vector);
            assert(((z & 0xF) as u8) as int == (z as int) % 16) by (bit_vector);
        }
        ((x & 0xF) as u8, (y & 0xFF) as u8, (z & 0xF) as u8)
    }
}

/// `v >> 4`: division by 16 rounding down.
fn floor16(v: i32) -> (r: i32)
    ensures
        r == v as int / 16,
{
    proof {
        assert((v >> 4i32) as int == (v as int) / 16) by (bit_vector);
    }
    v >> 4
}

/// A coordinate is its chunk times 16 plus its local offset, which lies
/// in 0..16.
pub proof fn law_block_split(v: i32)
    ensures
        (v as int / 16) * 16 + v as int % 16 == v,
        0 <= v as int % 16 < 16,
{
    vstd::arithmetic::div_mod::lemma_fundamental_div_mod(v as int, 16);
}

/// Chunk coordinates.
#[derive(Debug, Clone, Copy, PartialEq, Eq, Structural, Hash)]
pub struct ChunkPos {
    pub x: i32,
    pub z: i32,
}

impl ChunkPos {
    pub fn new(x: i32, z: i32) -> (r: Self)
        ensures
            r == (ChunkPos { x, z }),
    {
        ChunkPos { x, z }
    }

    /// The chunk holding world block position (x, z).
    pub fn from_block(x: i32, z: i32) -> (r: Self)
        ensures
            r.x == x as int / 16,
            r.z == z as int / 16,
    {
        Self::new(floor16(x), floor16(z))
    }
}

/// Bedrock block states (simplified palette).
#[derive(Debug, Clone, Copy, PartialEq, Eq, Structural)]
pub enum BlockState {
    Air,
    Stone,
    Grass,
    Dirt,
    Cobblestone,
    OakLog,
    OakPlanks,
    OakLeaves,
    Water,
    Sand,
    Bedrock,
    CoalOre,
    IronOre,
    GoldOre,
    DiamondOre,
    Glass,
    /// Custom block state with runtime ID
    Runtime(u32),
}

/// The runtime id of a block state: 0 to 15 for the named states, the
/// id itself for `Runtime`.
pub open spec fn id_of(s: BlockState) -> u32 {
    match s {
        BlockState::Air => 0,
        BlockState::Stone => 1,
        BlockState::Grass => 2,
        BlockState::Dirt => 3,
        BlockState::Cobblestone => 4,
        BlockState::OakLog => 5,
        BlockState::OakPlanks => 6,
        BlockState::OakLeaves => 7,
        BlockState::Water => 8,
        BlockState::Sand => 9,
        BlockState::Bedrock => 10,
        BlockState::CoalOre => 11,
        BlockState::IronOre => 12,
        BlockState::GoldOre => 13,
        BlockState::DiamondOre => 14,
        BlockState::Glass => 15,
        BlockState::Runtime(id) => id,
    }
}

/// The block state of a runtime id: the named state for 0 to 15,
/// `Runtime` otherwise.
pub open spec fn state_of(id: u32) -> BlockState {
    if id == 0 {
        BlockState::Air
    } else if id == 1 {
        BlockState::Stone
    } else if id == 2 {
        BlockState::Grass
    } else if id == 3 {
        BlockState::Dirt
    } else if id == 4 {
        BlockState::Cobblestone
    } else if id == 5 {
        BlockState::OakLog
    } else if id == 6 {
        BlockState::OakPlanks
    } else if id == 7 {
        BlockState::OakLeaves
    } else if id == 8 {
        BlockState::Water
    } else if id == 9 {
        BlockState::Sand
    } else if id == 10 {
        BlockState::Bedrock
    } else if id == 11 {
        BlockState::CoalOre
    } else if id == 12 {
        BlockState::IronOre
    } else if id == 13 {
        BlockState::GoldOre
    } else if id == 14 {
        BlockState::DiamondOre
    } else if id == 15 {
        BlockState::Glass
    } else {
        BlockState::Runtime(id)
    }
}

impl BlockState {
    /// Get the runtime ID for this block state.
    pub fn runtime_id(&self) -> (r: BlockRuntimeId)
        ensures
            r == id_of(*self),
    {
        match self {
            BlockState::Air => 0,
            BlockState::Stone => 1,
            BlockState::Grass => 2,
            BlockState::Dirt => 3,
            BlockState::Cobblestone => 4,
            BlockState::OakLog => 5,
            BlockState::OakPlanks => 6,
            BlockState::OakLeaves => 7,
            BlockState::Water => 8,
            BlockState::Sand => 9,
            BlockState::Bedrock => 10,
            BlockState::CoalOre => 11,
            BlockState::IronOre => 12,
            BlockState::GoldOre => 13,
            BlockState::DiamondOre => 14,
            BlockState::Glass => 15,
            BlockState::Runtime(id) => *id,
        }
    }

    /// Get block state from runtime ID.
    pub fn from_runtime_id(id: BlockRuntimeId) -> (r: Self)
        ensures
            r == state_of(id),
    {
        match id {
            0 => BlockState::Air,
            1 => BlockState::Stone,
            2 => BlockState::Grass,
            3 => BlockState::Dirt,
            4 => BlockState::Cobblestone,
            5 => BlockState::OakLog,
            6 => BlockState::OakPlanks,
            7 => BlockState::OakLeaves,
            8 => BlockState::Water,
            9 => BlockState::Sand,
            10 => BlockState::Bedrock,
            11 => BlockState::CoalOre,
            12 => BlockState::IronOre,
            13 => BlockState::GoldOre,
            14 => BlockState::DiamondOre,
            15 => BlockState::Glass,
            n => BlockState::Runtime(n),
        }
    }
}

/// Every runtime id comes back from its block state.
pub proof fn law_runtime_id_roundtrip(id: u32)
    ensures
        id_of(state_of(id)) == id,
{
}

/// The named block states have their fixed runtime ids, 0 to 15 in the
/// order air, stone, grass, dirt, cobblestone, oak log, oak planks, oak
/// leaves, water, sand, bedrock, coal ore, iron ore, gold ore, diamond
/// ore, glass; each of those ids reads back as its state, a `Runtime` state
/// carries its own id, and any other id reads as a `Runtime` state.
pub proof fn law_named_block_ids(n: u32)
    ensures
        id_of(BlockState::Air) == 0 && state_of(0) == BlockState::Air,
        id_of(BlockState::Stone) == 1 && state_of(1) == BlockState::Stone,
        id_of(BlockState::Grass) == 2 && state_of(2) == BlockState::Grass,
        id_of(BlockState::Dirt) == 3 && state_of(3) == BlockState::Dirt,
        id_of(BlockState::Cobblestone) == 4 && state_of(4) == BlockState::Cobblestone,
        id_of(BlockState::OakLog) == 5 && state_of(5) == BlockState::OakLog,
        id_of(BlockState::OakPlanks) == 6 && state_of(6) == BlockState::OakPlanks,
        id_of(BlockState::OakLeaves) == 7 && state_of(7) == BlockState::OakLeaves,
        id_of(BlockState::Water) == 8 && state_of(8) == BlockState::Water,
        id_of(BlockState::Sand) == 9 && state_of(9) == BlockState::Sand,
        id_of(BlockState::Bedrock) == 10 && state_of(10) == BlockState::Bedrock,
        id_of(BlockState::CoalOre) == 11 && state_of(11) == BlockState::CoalOre,
        id_of(BlockState::IronOre) == 12 && state_of(12) == BlockState::IronOre,
        id_of(BlockState::GoldOre) == 13 && state_of(13) == BlockState::GoldOre,
        id_of(BlockState::DiamondOre) == 14 && state_of(14) == BlockState::DiamondOre,
        id_of(BlockState::Glass) == 15 && state_of(15) == BlockState::Glass,
        id_of(BlockState::Runtime(n)) == n,
        n >= 16 ==> state_of(n) == BlockState::Runtime(n),
{
}

/// A block state comes back from its runtime id, unless it is a
/// `Runtime` state naming one of the sixteen named ids.
pub proof fn law_block_state_roundtrip(s: BlockState)
    ensures
        !(s matches BlockState::Runtime(n) && n < 16) ==> state_of(id_of(s)) == s,
{
}


/// The runtime id a block names: the palette entry at its index, 0 where
/// the palette has none.
pub open spec fn palette_lookup(palette: Seq<u32>, blocks: Seq<u16>, idx: int) -> u32 {
    let pi = blocks[idx] as int;
    if pi < palette.len() { palette[pi] } else { 0 }
}

/// Every block indexes an entry of the palette.
pub open spec fn indexes_palette(palette: Seq<u32>, blocks: Seq<u16>) -> bool {
    forall|i: int| 0 <= i < blocks.len() ==> (#[trigger] blocks[i] as int) < palette.len()
}

/// On a subchunk whose blocks index its palette, where `v` is or lands at
/// a palette index below 65536 (so that it fits a block's 16 bits): after
/// setting a block to `v`, the blocks still index the palette, the block
/// reads back as `v`, and every other block reads as before.
pub proof fn law_subchunk_set_get(palette: Seq<u32>, blocks: Seq<u16>, idx: int, v: u32, other: int)
    requires
        indexes_palette(palette, blocks),
        0 <= idx < blocks.len(),
        0 <= other < blocks.len(),
        palette_index(palette, v) < 0x10000,
    ensures
        ({
            let p2 = palette_with(palette, v);
            let b2 = blocks.update(idx, palette_index(palette, v) as u16);
            &&& indexes_palette(p2, b2)
            &&& palette_lookup(p2, b2, idx) == v
            &&& other != idx ==> palette_lookup(p2, b2, other) == palette_lookup(palette, blocks, other)
        }),
{
    lemma_palette_with(palette, v);
    let p2 = palette_with(palette, v);
    let b2 = blocks.update(idx, palette_index(palette, v) as u16);
    assert((palette_index(palette, v) as u16) as int == palette_index(palette, v));
    assert forall|i: int| 0 <= i < b2.len() implies (#[trigger] b2[i] as int) < p2.len() by {
        if i != idx {
            assert(b2[i] == blocks[i]);
        }
    }
    if other != idx {
        assert(b2[other] == blocks[other]);
        assert((blocks[other] as int) < palette.len());
    }
}

/// A 16x16x16 subchunk containing block data.
#[derive(Debug, Clone)]
pub struct SubChunk {
    /// Block palette mapping runtime IDs
    pub palette: Vec<BlockRuntimeId>,
    /// Block data stored as indices into palette (4096 entries for 16^3)
    pub blocks: Vec<u16>,
}

/// The block at height `ly` of a terrain subchunk of the given height:
/// bedrock at 0, stone below five under it, dirt up to it, grass at it,
/// air above.
pub open spec fn sub_terrain_id(height: u8, ly: int) -> u32 {
    let h = height as int;
    if ly == 0 {
        10
    } else if ly < h - 5 {
        1
    } else if ly < h {
        3
    } else if ly == h {
        2
    } else {
        0
    }
}

impl SubChunk {
    pub fn new() -> (r: Self)
        ensures
            r.palette@ == seq![0u32],
            r.blocks@ == zero_blocks(),
    {
        let mut palette: Vec<u32> = Vec::new();
        palette.push(0);
        SubChunk { palette, blocks: zeros(4096) }
    }

    pub fn with_air() -> (r: Self)
        ensures
            r.palette@ == seq![0u32],
            r.blocks@ == zero_blocks(),
    {
        Self::new()
    }

    /// Set a block at local coordinates (0-15).
    pub fn set_block(&mut self, lx: u8, ly: u8, lz: u8, state: BlockState)
        requires
            local_index(lx, ly, lz) < old(self).blocks@.len(),
        ensures
            final(self).palette@ == palette_with(old(self).palette@, id_of(state)),
            final(self).blocks@ == old(self).blocks@.update(
                local_index(lx, ly, lz),
                palette_index(old(self).palette@, id_of(state)) as u16,
            ),
    {
        let idx = Self::local_to_index(lx, ly, lz);
        let runtime_id = state.runtime_id();
        place(&mut self.palette, &mut self.blocks, idx, runtime_id);
    }

    /// Get block at local coordinates.
    pub fn get_block(&self, lx: u8, ly: u8, lz: u8) -> (r: BlockState)
        requires
            local_index(lx, ly, lz) < self.blocks@.len(),
        ensures
            r == state_of(palette_lookup(self.palette@, self.blocks@, local_index(lx, ly, lz))),
    {
        let idx = Self::local_to_index(lx, ly, lz);
        let palette_idx = self.blocks[idx] as usize;
        let runtime_id = if palette_idx < self.palette.len() { self.palette[palette_idx] } else { 0 };
        BlockState::from_runtime_id(runtime_id)
    }

    fn local_to_index(lx: u8, ly: u8, lz: u8) -> (r: usize)
        ensures
            r == local_index(lx, ly, lz),
    {
        (ly as usize) * 16 * 16 + (lz as usize) * 16 + (lx as usize)
    }

    /// Create a subchunk filled with a single block type.
    pub fn filled(state: BlockState) -> (r: Self)
        ensures
            r.palette@ == seq![id_of(state)],
            r.blocks@ == zero_blocks(),
    {
        let runtime_id = state.runtime_id();
        let mut palette: Vec<u32> = Vec::new();
        palette.push(runtime_id);
        SubChunk { palette, blocks: zeros(4096) }
    }

    /// Create a subchunk with terrain (see `sub_terrain_id`); the palette
    /// starts with air and takes each other id when it is first met.
    pub fn with_terrain(height: u8) -> (r: Self)
        ensures
            r.palette@ == palette_fold(
                seq![0u32],
                visit_order(Seq::new(4096, |i: int| sub_terrain_id(height, i / 256))),
            ),
            r.blocks@.len() == 4096,
            forall|i: int|
                0 <= i < 4096 ==> find_first(r.palette@, #[trigger] sub_terrain_id(height, i / 256))
                    == Some(r.blocks@[i] as nat),
            forall|i: int|
                0 <= i < 4096 ==> #[trigger] palette_lookup(r.palette@, r.blocks@, i) == sub_terrain_id(
                    height,
                    i / 256,
                ),
    {
        let ghost ids = Seq::new(4096, |i: int| sub_terrain_id(height, i / 256));
        let mut src: Vec<u32> = Vec::new();
        let mut i: usize = 0;
        while i < 4096
            invariant
                i <= 4096,
                src@ == ids.take(i as int),
                ids == Seq::new(4096, |i: int| sub_terrain_id(height, i / 256)),
            decreases 4096 - i,
        {
            let ly = (i / 256) as i32;
            let h = height as i32;
            let id: u32 = if ly == 0 {
                10
            } else if ly < h - 5 {
                1
            } else if ly < h {
                3
            } else if ly == h {
                2
            } else {
                0
            };
            proof {
                assert(ids[i as int] == id);
                assert(ids.take(i + 1) =~= ids.take(i as int).push(id));
            }
            src.push(id);
            i = i + 1;
        }
        assert(ids.take(4096) =~= ids);
        let mut chunk = Self::new();
        fill(&mut chunk.palette, &mut chunk.blocks, src.as_slice());
        assert forall|i: int| 0 <= i < 4096 implies find_first(
            chunk.palette@,
            #[trigger] sub_terrain_id(height, i / 256),
        ) == Some(chunk.blocks@[i] as nat) by {
            assert(src@[i] == sub_terrain_id(height, i / 256));
        }
        assert forall|i: int| 0 <= i < 4096 implies #[trigger] palette_lookup(
            chunk.palette@,
            chunk.blocks@,
            i,
        ) == sub_terrain_id(height, i / 256) by {
            assert(src@[i] == sub_terrain_id(height, i / 256));
        }
        chunk
    }
}

impl Default for SubChunk {
    fn default() -> (r: Self)
        ensures
            r.palette@ == seq![0u32],
            r.blocks@ == zero_blocks(),
    {
        Self::new()
    }
}


/// A 16x256x16 chunk column (16 subchunks stacked).
#[derive(Debug, Clone)]
pub struct Chunk {
    pub x: i32,
    pub z: i32,
    /// Subchunks indexed by Y level (0-15 for 0-255)
    pub subchunks: Vec<SubChunk>,
}

/// Sixteen subchunks of 4096 blocks, each block indexing its palette.
pub open spec fn chunk_wf(c: Chunk) -> bool {
    &&& c.subchunks@.len() == 16
    &&& forall|i: int|
        0 <= i < 16 ==> (#[trigger] c.subchunks@[i]).blocks@.len() == 4096 && indexes_palette(
            c.subchunks@[i].palette@,
            c.subchunks@[i].blocks@,
        )
}

/// A well-formed chunk whose palettes hold at most 4097 ids, as a freshly
/// generated chunk does.
pub open spec fn chunk_fresh(c: Chunk) -> bool {
    &&& chunk_wf(c)
    &&& forall|i: int| 0 <= i < 16 ==> (#[trigger] c.subchunks@[i]).palette@.len() <= 4097
}

/// The runtime id at local (lx, ly, lz) of a column; 0 above its
/// subchunks.
pub open spec fn chunk_block(c: Chunk, lx: u8, ly: u8, lz: u8) -> u32 {
    let sy = ly as int / 16;
    if sy < c.subchunks@.len() {
        let s = c.subchunks@[sy];
        palette_lookup(s.palette@, s.blocks@, local_index(lx, (ly % 16) as u8, lz))
    } else {
        0
    }
}

/// Setting a block stays inside the subchunk it falls in.
pub open spec fn chunk_can_set(c: Chunk, lx: u8, ly: u8, lz: u8) -> bool {
    let sy = ly as int / 16;
    sy < c.subchunks@.len() ==> local_index(lx, (ly % 16) as u8, lz) < c.subchunks@[sy].blocks@.len()
}

/// `c2` is `c1` with the block at local (lx, ly, lz) set to runtime id
/// `id`.
pub open spec fn chunk_set_rel(c1: Chunk, c2: Chunk, lx: u8, ly: u8, lz: u8, id: u32) -> bool {
    let sy = ly as int / 16;
    &&& c2.x == c1.x
    &&& c2.z == c1.z
    &&& c2.subchunks@.len() == c1.subchunks@.len()
    &&& forall|i: int| 0 <= i < c1.subchunks@.len() && i != sy ==> #[trigger] c2.subchunks@[i] == c1.subchunks@[i]
    &&& sy < c1.subchunks@.len() ==> {
        &&& c2.subchunks@[sy].palette@ == palette_with(c1.subchunks@[sy].palette@, id)
        &&& c2.subchunks@[sy].blocks@ == c1.subchunks@[sy].blocks@.update(
            local_index(lx, (ly % 16) as u8, lz),
            palette_index(c1.subchunks@[sy].palette@, id) as u16,
        )
    }
}

/// The block at world height `wy` of a terrain column with the given
/// surface height: bedrock at 0, stone below five under the surface,
/// dirt, grass just under the surface, water below 10, air above.
pub open spec fn column_id(surface_height: int, wy: int) -> u32 {
    if wy == 0 {
        10
    } else if wy < surface_height - 5 {
        1
    } else if wy < surface_height - 1 {
        3
    } else if wy == surface_height - 1 {
        2
    } else if wy < 10 {
        8
    } else {
        0
    }
}

/// The ids of subchunk `sy` of a terrain column, by block index.
pub open spec fn column_src(surface_height: int, sy: int) -> Seq<u32> {
    Seq::new(4096, |i: int| column_id(surface_height, sy * 16 + i / 256))
}

/// Subchunk `sy` of a terrain column as plain values: the palette that a
/// fill starting from air builds, and each block's index in it.
pub open spec fn terrain_sub_view(surface_height: int, sy: int) -> (Seq<u32>, Seq<u16>) {
    let src = column_src(surface_height, sy);
    let pal = palette_fold(seq![0u32], visit_order(src));
    (pal, Seq::new(4096, |i: int| (find_first(pal, src[i])->0) as u16))
}

/// A terrain column at (x, z) as `chunk_view` shows it.
pub open spec fn terrain_view(x: i32, z: i32, surface_height: i32) -> (i32, i32, Seq<(Seq<u32>, Seq<u16>)>) {
    (x, z, Seq::new(16, |sy: int| terrain_sub_view(surface_height as int, sy)))
}

/// A terrain column at (x, z): each subchunk's palette starts with air and
/// takes ids as a fill meets them, and each block reads the id of its
/// height.
pub open spec fn terrain_chunk(c: Chunk, x: i32, z: i32, surface_height: i32) -> bool {
    &&& c.x == x
    &&& c.z == z
    &&& chunk_fresh(c)
    &&& forall|sy: int|
        0 <= sy < 16 ==> (#[trigger] c.subchunks@[sy]).palette@ == palette_fold(
            seq![0u32],
            visit_order(column_src(surface_height as int, sy)),
        )
    &&& forall|sy: int, i: int|
        0 <= sy < 16 && 0 <= i < 4096 ==> find_first(
            c.subchunks@[sy].palette@,
            #[trigger] column_src(surface_height as int, sy)[i],
        ) == Some(c.subchunks@[sy].blocks@[i] as nat)
    &&& forall|sy: int, i: int|
        0 <= sy < 16 && 0 <= i < 4096 ==> #[trigger] palette_lookup(
            c.subchunks@[sy].palette@,
            c.subchunks@[sy].blocks@,
            i,
        ) == column_id(surface_height as int, sy * 16 + i / 256)
}

fn column_block(surface_height: i64, wy: i64) -> (r: u32)
    requires
        -0x1_0000_0000 < surface_height < 0x1_0000_0000,
    ensures
        r == column_id(surface_height as int, wy as int),
{
    if wy == 0 {
        10
    } else if wy < surface_height - 5 {
        1
    } else if wy < surface_height - 1 {
        3
    } else if wy == surface_height - 1 {
        2
    } else if wy < 10 {
        8
    } else {
        0
    }
}

fn terrain_subchunk(surface_height: i32, sy: usize) -> (r: SubChunk)
    requires
        sy < 16,
    ensures
        r.palette@ == palette_fold(seq![0u32], visit_order(column_src(surface_height as int, sy as int))),
        r.palette@.len() <= 4097,
        r.blocks@.len() == 4096,
        indexes_palette(r.palette@, r.blocks@),
        forall|i: int|
            0 <= i < 4096 ==> find_first(
                r.palette@,
                #[trigger] column_src(surface_height as int, sy as int)[i],
            ) == Some(r.blocks@[i] as nat),
        forall|i: int|
            0 <= i < 4096 ==> #[trigger] palette_lookup(r.palette@, r.blocks@, i) == column_id(
                surface_height as int,
                sy * 16 + i / 256,
            ),
{
    let ghost ids = column_src(surface_height as int, sy as int);
    let mut src: Vec<u32> = Vec::new();
    let mut i: usize = 0;
    while i < 4096
        invariant
            i <= 4096,
            sy < 16,
            src@ == ids.take(i as int),
            ids == column_src(surface_height as int, sy as int),
        decreases 4096 - i,
    {
        let wy = (sy * 16 + i / 256) as i64;
        let id = column_block(surface_height as i64, wy);
        proof {
            assert(ids[i as int] == id);
            assert(ids.take(i + 1) =~= ids.take(i as int).push(id));
        }
        src.push(id);
        i = i + 1;
    }
    assert(ids.take(4096) =~= ids);
    let mut sub = SubChunk::new();
    fill(&mut sub.palette, &mut sub.blocks, src.as_slice());
    assert forall|i: int| 0 <= i < 4096 implies #[trigger] palette_lookup(sub.palette@, sub.blocks@, i)
        == column_id(surface_height as int, sy * 16 + i / 256) by {
        assert(src@[i] == column_id(surface_height as int, sy * 16 + i / 256));
    }
    sub
}

impl Chunk {
    /// A column of sixteen all-air subchunks.
    pub fn new(x: i32, z: i32) -> (r: Self)
        ensures
            r.x == x,
            r.z == z,
            r.subchunks@.len() == 16,
            forall|i: int|
                0 <= i < 16 ==> (#[trigger] r.subchunks@[i]).palette@ == seq![0u32]
                    && r.subchunks@[i].blocks@ == zero_blocks(),
            chunk_fresh(r),
    {
        let mut subchunks: Vec<SubChunk> = Vec::new();
        let mut i: usize = 0;
        while i < 16
            invariant
                i <= 16,
                subchunks@.len() == i,
                forall|j: int|
                    0 <= j < i ==> (#[trigger] subchunks@[j]).palette@ == seq![0u32]
                        && subchunks@[j].blocks@ == zero_blocks(),
            decreases 16 - i,
        {
            subchunks.push(SubChunk::new());
            i = i + 1;
        }
        Chunk { x, z, subchunks }
    }

    /// Get a subchunk at Y level (0-15).
    pub fn get_subchunk(&self, y: i32) -> (r: Option<&SubChunk>)
        ensures
            match r {
                Some(s) => 0 <= y < self.subchunks@.len() && *s == self.subchunks@[y as int],
                None => !(0 <= y < self.subchunks@.len()),
            },
    {
        if y >= 0 && (y as usize) < self.subchunks.len() {
            Some(&self.subchunks[y as usize])
        } else {
            None
        }
    }

    /// Get mutable subchunk at Y level.
    pub fn get_subchunk_mut(&mut self, y: i32) -> (r: Option<&mut SubChunk>)
        ensures
            match r {
                Some(s) => 0 <= y < old(self).subchunks@.len() && *s == old(self).subchunks@[y as int]
                    && final(self).subchunks@ == old(self).subchunks@.update(y as int, *final(s))
                    && final(self).x == old(self).x && final(self).z == old(self).z,
                None => !(0 <= y < old(self).subchunks@.len()) && *final(self) == *old(self),
            },
    {
        if y >= 0 && (y as usize) < self.subchunks.len() {
            Some(&mut self.subchunks[y as usize])
        } else {
            None
        }
    }

    /// Set block at local position (y is 0-255).
    pub fn set_block(&mut self, lx: u8, ly: u8, lz: u8, state: BlockState)
        requires
            chunk_can_set(*old(self), lx, ly, lz),
        ensures
            chunk_set_rel(*old(self), *final(self), lx, ly, lz, id_of(state)),
    {
        let subchunk_y = ly / 16;
        match self.get_subchunk_mut(subchunk_y as i32) {
            Some(subchunk) => {
                subchunk.set_block(lx, ly % 16, lz, state);
            },
            None => {},
        }
    }

    /// Get block at local position; air above the subchunks.
    pub fn get_block(&self, lx: u8, ly: u8, lz: u8) -> (r: BlockState)
        requires
            chunk_can_set(*self, lx, ly, lz),
        ensures
            r == state_of(chunk_block(*self, lx, ly, lz)),
    {
        let subchunk_y = ly / 16;
        match self.get_subchunk(subchunk_y as i32) {
            Some(s) => s.get_block(lx, ly % 16, lz),
            None => BlockState::Air,
        }
    }

    /// Create a terrain column (see `column_id`).
    pub fn with_terrain(x: i32, z: i32, surface_height: i32) -> (r: Self)
        ensures
            terrain_chunk(r, x, z, surface_height),
    {
        let mut subchunks: Vec<SubChunk> = Vec::new();
        let mut sy: usize = 0;
        while sy < 16
            invariant
                sy <= 16,
                subchunks@.len() == sy,
                forall|t: int|
                    0 <= t < sy ==> {
                        &&& (#[trigger] subchunks@[t]).palette@ == palette_fold(
                            seq![0u32],
                            visit_order(column_src(surface_height as int, t)),
                        )
                        &&& subchunks@[t].palette@.len() <= 4097
                        &&& subchunks@[t].blocks@.len() == 4096
                        &&& indexes_palette(subchunks@[t].palette@, subchunks@[t].blocks@)
                        &&& forall|i: int|
                            0 <= i < 4096 ==> find_first(
                                subchunks@[t].palette@,
                                #[trigger] column_src(surface_height as int, t)[i],
                            ) == Some(subchunks@[t].blocks@[i] as nat)
                        &&& forall|i: int|
                            0 <= i < 4096 ==> #[trigger] palette_lookup(
                                subchunks@[t].palette@,
                                subchunks@[t].blocks@,
                                i,
                            ) == column_id(surface_height as int, t * 16 + i / 256)
                    },
            decreases 16 - sy,
        {
            let sub = terrain_subchunk(surface_height, sy);
            subchunks.push(sub);
            sy = sy + 1;
        }
        Chunk { x, z, subchunks }
    }
}


/// A chunk column as plain values: its coordinates and, for each
/// subchunk, its palette and block indices.
pub open spec fn chunk_view(c: Chunk) -> (i32, i32, Seq<(Seq<u32>, Seq<u16>)>) {
    (c.x, c.z, c.subchunks@.map_values(|s: SubChunk| (s.palette@, s.blocks@)))
}

/// World generator: terrain heights and chunk columns. Each generator
/// states, by `height_gives` and `generate_gives`, what it gives; a
/// generated chunk lies at the coordinates asked for and is fresh.
pub trait WorldGenerator: Send + Sync {
    /// `h` is a height this generator gives at (x, z). A generator that
    /// states nothing keeps this default, which admits every height.
    open spec fn height_gives(&self, x: i32, z: i32, h: i32) -> bool {
        true
    }

    /// `c` (as `chunk_view` shows a chunk) is a column this generator
    /// makes at (x, z). A generator that states nothing keeps this
    /// default, which admits every column.
    open spec fn generate_gives(&self, x: i32, z: i32, c: (i32, i32, Seq<(Seq<u32>, Seq<u16>)>)) -> bool {
        true
    }

    /// Terrain height at the given world coordinates.
    fn get_height(&self, x: i32, z: i32) -> (r: i32)
        ensures
            self.height_gives(x, z, r),
    ;

    /// Generate a chunk with terrain.
    fn generate_chunk(&self, x: i32, z: i32) -> (r: Chunk)
        ensures
            r.x == x,
            r.z == z,
            chunk_fresh(r),
            self.generate_gives(x, z, chunk_view(r)),
    ;
}

/// Simple flat world generator.
pub struct FlatGenerator {
    pub surface_height: i32,
    pub sea_level: i32,
}

impl FlatGenerator {
    pub fn new(surface_height: i32, sea_level: i32) -> (r: Self)
        ensures
            r.surface_height == surface_height,
            r.sea_level == sea_level,
    {
        FlatGenerator { surface_height, sea_level }
    }
}

impl Default for FlatGenerator {
    fn default() -> (r: Self)
        ensures
            r.surface_height == 64,
            r.sea_level == 62,
    {
        FlatGenerator { surface_height: 64, sea_level: 62 }
    }
}

/// The block at world height `wy` of a generated column whose surface is
/// at `h`: bedrock at 0, stone below five under the surface, then dirt,
/// an oak log (where a tree stands) or grass just under the surface, oak
/// leaves for the four blocks from the surface up, water below sea level
/// (62), air above.
pub open spec fn layered_id(h: int, tree: bool, wy: int) -> u32 {
    if wy == 0 {
        10
    } else if wy < h - 5 {
        1
    } else if wy < h - 1 {
        3
    } else if wy == h - 1 {
        if tree { 5 } else { 2 }
    } else if wy < h + 4 && wy >= h {
        7
    } else if wy < 62 {
        8
    } else {
        0
    }
}

/// The ids of subchunk `sy` of a generated column, by block index: each
/// block takes the surface height and tree of its (x, z) column.
pub open spec fn layered_src(heights: [[i32; 16]; 16], trees: [[bool; 16]; 16], sy: int) -> Seq<u32> {
    Seq::new(
        4096,
        |i: int|
            layered_id(
                heights@[i % 16]@[(i / 16) % 16] as int,
                trees@[i % 16]@[(i / 16) % 16],
                sy * 16 + i / 256,
            ),
    )
}

/// A generated column at (x, z) from per-column surface heights and
/// trees (indexed by local x, then local z): each subchunk's palette
/// starts with air and takes ids in the order x, z, y, and each block
/// reads the id of its column and height.
pub open spec fn layered_chunk_rel(
    c: Chunk,
    x: i32,
    z: i32,
    heights: [[i32; 16]; 16],
    trees: [[bool; 16]; 16],
) -> bool {
    &&& c.x == x
    &&& c.z == z
    &&& chunk_fresh(c)
    &&& forall|sy: int|
        0 <= sy < 16 ==> (#[trigger] c.subchunks@[sy]).palette@ == palette_fold(
            seq![0u32],
            visit_order(layered_src(heights, trees, sy)),
        )
    &&& forall|sy: int, i: int|
        0 <= sy < 16 && 0 <= i < 4096 ==> find_first(
            c.subchunks@[sy].palette@,
            #[trigger] layered_src(heights, trees, sy)[i],
        ) == Some(c.subchunks@[sy].blocks@[i] as nat)
}

fn layered_block(h: i64, tree: bool, wy: i64) -> (r: u32)
    requires
        -0x1_0000_0000 < h < 0x1_0000_0000,
    ensures
        r == layered_id(h as int, tree, wy as int),
{
    if wy == 0 {
        10
    } else if wy < h - 5 {
        1
    } else if wy < h - 1 {
        3
    } else if wy == h - 1 {
        if tree { 5 } else { 2 }
    } else if wy < h + 4 && wy >= h {
        7
    } else if wy < 62 {
        8
    } else {
        0
    }
}

fn layered_subchunk(heights: &[[i32; 16]; 16], trees: &[[bool; 16]; 16], sy: usize) -> (r: SubChunk)
    requires
        sy < 16,
    ensures
        r.palette@ == palette_fold(seq![0u32], visit_order(layered_src(*heights, *trees, sy as int))),
        r.palette@.len() <= 4097,
        r.blocks@.len() == 4096,
        indexes_palette(r.palette@, r.blocks@),
        forall|i: int|
            0 <= i < 4096 ==> find_first(
                r.palette@,
                #[trigger] layered_src(*heights, *trees, sy as int)[i],
            ) == Some(r.blocks@[i] as nat),
{
    let ghost ids = layered_src(*heights, *trees, sy as int);
    let mut src: Vec<u32> = Vec::new();
    let mut i: usize = 0;
    while i < 4096
        invariant
            i <= 4096,
            sy < 16,
            src@ == ids.take(i as int),
            ids == layered_src(*heights, *trees, sy as int),
        decreases 4096 - i,
    {
        let lx = i % 16;
        let lz = (i / 16) % 16;
        let wy = (sy * 16 + i / 256) as i64;
        let id = layered_block(heights[lx][lz] as i64, trees[lx][lz], wy);
        proof {
            assert(ids[i as int] == id);
            assert(ids.take(i + 1) =~= ids.take(i as int).push(id));
        }
        src.push(id);
        i = i + 1;
    }
    assert(ids.take(4096) =~= ids);
    let mut sub = SubChunk::new();
    fill(&mut sub.palette, &mut sub.blocks, src.as_slice());
    sub
}

/// Build a generated column at (x, z) from the surface height and whether
/// a tree stands, for each of its 16 x 16 columns (indexed by local x,
/// then local z); see `layered_id`.
pub fn layered_chunk(x: i32, z: i32, heights: &[[i32; 16]; 16], trees: &[[bool; 16]; 16]) -> (r: Chunk)
    ensures
        layered_chunk_rel(r, x, z, *heights, *trees),
{
    let mut subchunks: Vec<SubChunk> = Vec::new();
    let mut sy: usize = 0;
    while sy < 16
        invariant
            sy <= 16,
            subchunks@.len() == sy,
            forall|t: int|
                0 <= t < sy ==> {
                    &&& (#[trigger] subchunks@[t]).palette@ == palette_fold(
                        seq![0u32],
                        visit_order(layered_src(*heights, *trees, t)),
                    )
                    &&& subchunks@[t].palette@.len() <= 4097
                    &&& subchunks@[t].blocks@.len() == 4096
                    &&& indexes_palette(subchunks@[t].palette@, subchunks@[t].blocks@)
                    &&& forall|i: int|
                        0 <= i < 4096 ==> find_first(
                            subchunks@[t].palette@,
                            #[trigger] layered_src(*heights, *trees, t)[i],
                        ) == Some(subchunks@[t].blocks@[i] as nat)
                },
        decreases 16 - sy,
    {
        let sub = layered_subchunk(heights, trees, sy);
        subchunks.push(sub);
        sy = sy + 1;
    }
    Chunk { x, z, subchunks }
}

impl WorldGenerator for FlatGenerator {
    /// The same height everywhere.
    open spec fn height_gives(&self, x: i32, z: i32, h: i32) -> bool {
        h == self.surface_height
    }

    /// A terrain column at the surface height.
    open spec fn generate_gives(&self, x: i32, z: i32, c: (i32, i32, Seq<(Seq<u32>, Seq<u16>)>)) -> bool {
        c == terrain_view(x, z, self.surface_height)
    }

    /// The same height everywhere.
    fn get_height(&self, _x: i32, _z: i32) -> (r: i32)
        ensures
            r == self.surface_height,
    {
        self.surface_height
    }

    /// A terrain column at the surface height.
    fn generate_chunk(&self, x: i32, z: i32) -> (r: Chunk)
        ensures
            terrain_chunk(r, x, z, self.surface_height),
    {
        let c = Chunk::with_terrain(x, z, self.surface_height);
        proof {
            lemma_terrain_view(c, x, z, self.surface_height);
        }
        c
    }
}

/// A terrain column's view is `terrain_view`.
proof fn lemma_terrain_view(c: Chunk, x: i32, z: i32, surface_height: i32)
    requires
        terrain_chunk(c, x, z, surface_height),
    ensures
        chunk_view(c) == terrain_view(x, z, surface_height),
{
    let subs = c.subchunks@.map_values(|s: SubChunk| (s.palette@, s.blocks@));
    let want = Seq::new(16, |sy: int| terrain_sub_view(surface_height as int, sy));
    assert(c.subchunks@.len() == 16);
    assert forall|sy: int| 0 <= sy < 16 implies #[trigger] subs[sy] == want[sy] by {
        let s = c.subchunks@[sy];
        let src = column_src(surface_height as int, sy);
        let w = terrain_sub_view(surface_height as int, sy);
        assert(s.palette@ == w.0);
        assert forall|i: int| 0 <= i < 4096 implies #[trigger] s.blocks@[i] == w.1[i] by {
            assert(find_first(s.palette@, src[i]) == Some(s.blocks@[i] as nat));
        }
        assert(s.blocks@ =~= w.1);
    }
    assert(subs =~= want);
}

/// The key of chunk column (x, z) in the world's chunk map: the bits of x
/// above those of z.
pub open spec fn key_of(x: i32, z: i32) -> u64 {
    ((x as u32) as nat * 0x1_0000_0000 + (z as u32) as nat) as u64
}

/// The key of a chunk column.
pub fn chunk_key(x: i32, z: i32) -> (r: u64)
    ensures
        r == key_of(x, z),
{
    let hi = (x as u32) as u64;
    let lo = (z as u32) as u64;
    proof {
        assert((hi << 32u64) | lo == hi * 0x1_0000_0000 + lo) by (bit_vector)
            requires
                hi < 0x1_0000_0000,
                lo < 0x1_0000_0000,
        ;
    }
    (hi << 32) | lo
}

/// Distinct columns have distinct keys.
pub proof fn law_chunk_key_injective(x1: i32, z1: i32, x2: i32, z2: i32)
    ensures
        key_of(x1, z1) == key_of(x2, z2) ==> x1 == x2 && z1 == z2,
{
    let a1 = (x1 as u32) as nat;
    let b1 = (z1 as u32) as nat;
    let a2 = (x2 as u32) as nat;
    let b2 = (z2 as u32) as nat;
    if key_of(x1, z1) == key_of(x2, z2) {
        assert(a1 * 0x1_0000_0000 + b1 < 0x1_0000_0000_0000_0000) by (nonlinear_arith)
            requires
                a1 < 0x1_0000_0000,
                b1 < 0x1_0000_0000,
        ;
        assert(a2 * 0x1_0000_0000 + b2 < 0x1_0000_0000_0000_0000) by (nonlinear_arith)
            requires
                a2 < 0x1_0000_0000,
                b2 < 0x1_0000_0000,
        ;
        vstd::arithmetic::div_mod::lemma_fundamental_div_mod_converse(
            (a1 * 0x1_0000_0000 + b1) as int,
            0x1_0000_0000,
            a1 as int,
            b1 as int,
        );
        vstd::arithmetic::div_mod::lemma_fundamental_div_mod_converse(
            (a2 * 0x1_0000_0000 + b2) as int,
            0x1_0000_0000,
            a2 as int,
            b2 as int,
        );
        assert(x1 as u32 == x2 as u32 ==> x1 == x2) by (bit_vector);
        assert(z1 as u32 == z2 as u32 ==> z1 == z2) by (bit_vector);
    }
}

/// Every chunk held is well-formed.
pub open spec fn chunks_wf(chunks: Map<u64, Chunk>) -> bool {
    forall|k: u64| chunks.contains_key(k) ==> chunk_wf(#[trigger] chunks[k])
}

/// The block at `pos` has its place: at a height 0 to 255 in a loaded
/// column, the subchunk that holds it, if the column has one, has an
/// entry for it.
pub open spec fn target_ok(chunks: Map<u64, Chunk>, pos: BlockPos) -> bool {
    let k = key_of((pos.x as int / 16) as i32, (pos.z as int / 16) as i32);
    0 <= pos.y < 256 && chunks.contains_key(k) ==> chunk_can_set(
        chunks[k],
        (pos.x as int % 16) as u8,
        (pos.y as int % 256) as u8,
        (pos.z as int % 16) as u8,
    )
}

/// The runtime id at a world position: 0 outside heights 0 to 255 and
/// in columns not loaded.
pub open spec fn world_block(chunks: Map<u64, Chunk>, pos: BlockPos) -> u32 {
    if pos.y < 0 || pos.y >= 256 {
        0
    } else {
        let k = key_of((pos.x as int / 16) as i32, (pos.z as int / 16) as i32);
        if chunks.contains_key(k) {
            chunk_block(
                chunks[k],
                (pos.x as int % 16) as u8,
                (pos.y as int % 256) as u8,
                (pos.z as int % 16) as u8,
            )
        } else {
            0
        }
    }
}

/// `after` is `before` with the block at `pos` (0 <= y < 256) set to
/// `id`: its column is loaded (a fresh one generated if it was missing),
/// and no other column changes.
pub open spec fn world_set_rel(before: Map<u64, Chunk>, after: Map<u64, Chunk>, pos: BlockPos, id: u32) -> bool {
    let cx = (pos.x as int / 16) as i32;
    let cz = (pos.z as int / 16) as i32;
    let k = key_of(cx, cz);
    let lx = (pos.x as int % 16) as u8;
    let ly = (pos.y as int % 256) as u8;
    let lz = (pos.z as int % 16) as u8;
    &&& after.dom() == before.dom().insert(k)
    &&& forall|k2: u64| k2 != k && before.contains_key(k2) ==> #[trigger] after[k2] == before[k2]
    &&& before.contains_key(k) ==> chunk_set_rel(before[k], after[k], lx, ly, lz, id)
    &&& !before.contains_key(k) ==> exists|c: Chunk|
        c.x == cx && c.z == cz && chunk_fresh(c) && #[trigger] chunk_set_rel(c, after[k], lx, ly, lz, id)
}

/// Where setting the block at `pos` loaded its column, the column set was
/// the one the generator `g` gives there.
pub open spec fn set_loads_generated<G: WorldGenerator + ?Sized>(
    before: Map<u64, Chunk>,
    after: Map<u64, Chunk>,
    g: Arc<G>,
    pos: BlockPos,
    id: u32,
) -> bool {
    let cx = (pos.x as int / 16) as i32;
    let cz = (pos.z as int / 16) as i32;
    let k = key_of(cx, cz);
    !before.contains_key(k) ==> exists|c: Chunk|
        c.x == cx && c.z == cz && chunk_fresh(c) && g.generate_gives(cx, cz, chunk_view(c))
            && #[trigger] chunk_set_rel(
            c,
            after[k],
            (pos.x as int % 16) as u8,
            (pos.y as int % 256) as u8,
            (pos.z as int % 16) as u8,
            id,
        )
}

/// Local coordinates below 16 (x, z) fall inside a subchunk.
proof fn lemma_local_in_range(lx: u8, ly: u8, lz: u8)
    requires
        lx < 16,
        lz < 16,
    ensures
        0 <= local_index(lx, (ly % 16) as u8, lz) < 4096,
        ly as int / 16 < 16,
{
}

/// Setting a block inside a subchunk keeps a column well-formed.
proof fn lemma_set_keeps_wf(c1: Chunk, c2: Chunk, lx: u8, ly: u8, lz: u8, id: u32)
    requires
        chunk_wf(c1),
        chunk_set_rel(c1, c2, lx, ly, lz, id),
        0 <= local_index(lx, (ly % 16) as u8, lz) < 4096,
    ensures
        chunk_wf(c2),
{
    let sy = ly as int / 16;
    if sy < 16 {
        let p = c1.subchunks@[sy].palette@;
        let b = c1.subchunks@[sy].blocks@;
        let idx = local_index(lx, (ly % 16) as u8, lz);
        lemma_palette_with(p, id);
        let pi = palette_index(p, id);
        let p2 = palette_with(p, id);
        assert((pi as u16) < p2.len()) by {
            if pi < 65536 {
                assert((pi as u16) as int == pi);
            } else {
                assert((pi as u16) < 65536);
            }
        }
        let b2 = b.update(idx, pi as u16);
        assert forall|i: int| 0 <= i < b2.len() implies (#[trigger] b2[i] as int) < p2.len() by {
            if i != idx {
                assert(b2[i] == b[i]);
            }
        }
    }
    assert forall|i: int| 0 <= i < 16 implies (#[trigger] c2.subchunks@[i]).blocks@.len() == 4096
        && indexes_palette(c2.subchunks@[i].palette@, c2.subchunks@[i].blocks@) by {
        if i != sy {
            assert(c2.subchunks@[i] == c1.subchunks@[i]);
        }
    }
}

/// Distinct local positions with x and z below 16 are distinct blocks:
/// either in different subchunks or at different indices.
proof fn lemma_local_distinct(a: (u8, u8, u8), b: (u8, u8, u8))
    requires
        a.0 < 16,
        a.2 < 16,
        b.0 < 16,
        b.2 < 16,
        a != b,
    ensures
        a.1 as int / 16 != b.1 as int / 16 || local_index(a.0, (a.1 % 16) as u8, a.2) != local_index(
            b.0,
            (b.1 % 16) as u8,
            b.2,
        ),
{
}

/// A coordinate is determined by its chunk and its offset in it.
proof fn lemma_coord_split(u: i32, v: i32)
    requires
        u as int / 16 == v as int / 16,
        u as int % 16 == v as int % 16,
    ensures
        u == v,
{
    law_block_split(u);
    law_block_split(v);
}

/// On a world whose columns are well-formed: once a block is set (at a
/// height 0 to 255) it reads back as the id set, provided the id is or
/// lands at an index below 65536 of its subchunk's palette (an index must
/// fit a block's 16 bits); and every other block of a column that was
/// loaded reads as before.
pub proof fn law_world_set_get(
    before: Map<u64, Chunk>,
    after: Map<u64, Chunk>,
    pos: BlockPos,
    id: u32,
    other: BlockPos,
)
    requires
        chunks_wf(before),
        0 <= pos.y < 256,
        world_set_rel(before, after, pos, id),
        ({
            let k = key_of((pos.x as int / 16) as i32, (pos.z as int / 16) as i32);
            before.contains_key(k) ==> palette_index(
                before[k].subchunks@[(pos.y as int % 256) / 16].palette@,
                id,
            ) < 0x10000
        }),
    ensures
        world_block(after, pos) == id,
        ({
            let k = key_of((pos.x as int / 16) as i32, (pos.z as int / 16) as i32);
            let k2 = key_of((other.x as int / 16) as i32, (other.z as int / 16) as i32);
            other != pos && (k2 != k || before.contains_key(k)) ==> world_block(after, other)
                == world_block(before, other)
        }),
{
    let cx = (pos.x as int / 16) as i32;
    let cz = (pos.z as int / 16) as i32;
    let k = key_of(cx, cz);
    let lx = (pos.x as int % 16) as u8;
    let ly = (pos.y as int % 256) as u8;
    let lz = (pos.z as int % 16) as u8;
    let sy = ly as int / 16;
    let idx = local_index(lx, (ly % 16) as u8, lz);
    law_block_split(pos.x);
    law_block_split(pos.z);
    lemma_local_in_range(lx, ly, lz);
    let c1 = if before.contains_key(k) {
        before[k]
    } else {
        choose|c: Chunk|
            c.x == cx && c.z == cz && chunk_fresh(c) && #[trigger] chunk_set_rel(c, after[k], lx, ly, lz, id)
    };
    assert(chunk_wf(c1));
    assert(chunk_set_rel(c1, after[k], lx, ly, lz, id));
    let s1 = c1.subchunks@[sy];
    lemma_palette_with(s1.palette@, id);
    assert(palette_index(s1.palette@, id) < 0x10000);
    law_subchunk_set_get(s1.palette@, s1.blocks@, idx, id, idx);
    assert(after.contains_key(k));
    let ox = (other.x as int % 16) as u8;
    let oy = (other.y as int % 256) as u8;
    let oz = (other.z as int % 16) as u8;
    let k2 = key_of((other.x as int / 16) as i32, (other.z as int / 16) as i32);
    if other != pos && (k2 != k || before.contains_key(k)) && 0 <= other.y < 256 {
        law_block_split(other.x);
        law_block_split(other.z);
        if k2 != k {
            assert(after.contains_key(k2) == before.contains_key(k2));
        } else {
            law_chunk_key_injective((other.x as int / 16) as i32, (other.z as int / 16) as i32, cx, cz);
            if (ox, oy, oz) == (lx, ly, lz) {
                lemma_coord_split(other.x, pos.x);
                lemma_coord_split(other.z, pos.z);
                assert(other == pos);
            }
            lemma_local_distinct((ox, oy, oz), (lx, ly, lz));
            let osy = oy as int / 16;
            let oidx = local_index(ox, (oy % 16) as u8, oz);
            lemma_local_in_range(ox, oy, oz);
            if osy == sy {
                law_subchunk_set_get(s1.palette@, s1.blocks@, idx, id, oidx);
            } else {
                assert(after[k].subchunks@[osy] == c1.subchunks@[osy]);
            }
        }
    }
}

/// The main world structure holding chunks and world state. Chunks are
/// keyed by `key_of` their column.
pub struct World<G: WorldGenerator + ?Sized> {
    pub name: String,
    pub seed: i64,
    pub chunks: HashMap<u64, Chunk>,
    pub generator: Arc<G>,
    pub spawn_position: BlockPos,
}

impl<G: WorldGenerator + ?Sized> World<G> {
    /// A world with no chunks loaded, spawning at (0, h, 0) where h is the
    /// generator's height there.
    pub fn new(name: String, seed: i64, generator: Arc<G>) -> (r: Self)
        ensures
            r.name == name,
            r.seed == seed,
            r.chunks@ == Map::<u64, Chunk>::empty(),
            r.generator == generator,
            r.spawn_position.x == 0,
            r.spawn_position.z == 0,
            generator.height_gives(0, 0, r.spawn_position.y),
    {
        let h = generator.get_height(0, 0);
        let spawn = BlockPos::new(0, h, 0);
        World { name, seed, chunks: HashMap::new(), generator, spawn_position: spawn }
    }

    /// Get or generate a chunk: the loaded one if there is one, else the
    /// generator's, which is then kept.
    pub fn get_chunk(&mut self, x: i32, z: i32) -> (r: &Chunk)
        ensures
            final(self).chunks@ == old(self).chunks@.insert(key_of(x, z), *r),
            old(self).chunks@.contains_key(key_of(x, z)) ==> *r == old(self).chunks@[key_of(x, z)],
            !old(self).chunks@.contains_key(key_of(x, z)) ==> r.x == x && r.z == z && chunk_fresh(*r)
                && old(self).generator.generate_gives(x, z, chunk_view(*r)),
            final(self).name == old(self).name,
            final(self).seed == old(self).seed,
            final(self).generator == old(self).generator,
            final(self).spawn_position == old(self).spawn_position,
    {
        let key = chunk_key(x, z);
        if !self.chunks.contains_key(&key) {
            let c = self.generator.generate_chunk(x, z);
            self.chunks.insert(key, c);
        }
        self.chunks.get(&key).unwrap()
    }

    /// Get a mutable chunk, loading it as `get_chunk` does.
    pub fn get_chunk_mut(&mut self, x: i32, z: i32) -> (r: &mut Chunk)
        ensures
            final(self).chunks@ == old(self).chunks@.insert(key_of(x, z), *final(r)),
            old(self).chunks@.contains_key(key_of(x, z)) ==> *r == old(self).chunks@[key_of(x, z)],
            !old(self).chunks@.contains_key(key_of(x, z)) ==> r.x == x && r.z == z && chunk_fresh(*r)
                && old(self).generator.generate_gives(x, z, chunk_view(*r)),
            final(self).name == old(self).name,
            final(self).seed == old(self).seed,
            final(self).generator == old(self).generator,
            final(self).spawn_position == old(self).spawn_position,
    {
        let key = chunk_key(x, z);
        let fresh = if self.chunks.contains_key(&key) {
            Chunk { x, z, subchunks: Vec::new() }
        } else {
            self.generator.generate_chunk(x, z)
        };
        self.chunks.entry(key).or_insert(fresh)
    }

    /// Set block at world position; heights outside 0 to 255 are refused.
    pub fn set_block(&mut self, pos: BlockPos, state: BlockState) -> (r: Result<(), WorldError>)
        requires
            target_ok(old(self).chunks@, pos),
        ensures
            chunks_wf(old(self).chunks@) ==> chunks_wf(final(self).chunks@),
            (pos.y < 0 || pos.y >= 256) ==> (r matches Err(WorldError::BlockOutOfBounds(a, b, c))
                && a == pos.x && b == pos.y && c == pos.z) && final(self).chunks@ == old(self).chunks@,
            !(pos.y < 0 || pos.y >= 256) ==> r is Ok && world_set_rel(
                old(self).chunks@,
                final(self).chunks@,
                pos,
                id_of(state),
            ) && set_loads_generated(
                old(self).chunks@,
                final(self).chunks@,
                old(self).generator,
                pos,
                id_of(state),
            ),
            final(self).name == old(self).name,
            final(self).seed == old(self).seed,
            final(self).generator == old(self).generator,
            final(self).spawn_position == old(self).spawn_position,
    {
        if pos.y < 0 || pos.y >= 256 {
            return Err(WorldError::BlockOutOfBounds(pos.x, pos.y, pos.z));
        }
        let ghost before = self.chunks@;
        let (cx, cz) = pos.to_chunk();
        let (lx, ly, lz) = pos.local();
        let ghost k = key_of(cx, cz);
        let chunk = self.get_chunk_mut(cx, cz);
        let ghost c0 = *chunk;
        proof {
            lemma_local_in_range(lx, ly, lz);
        }
        proof {
            law_block_split(pos.x);
            law_block_split(pos.z);
            assert(cx == (pos.x as int / 16) as i32);
            assert(cz == (pos.z as int / 16) as i32);
            assert(lx == (pos.x as int % 16) as u8);
            assert(ly == (pos.y as int % 256) as u8);
            assert(lz == (pos.z as int % 16) as u8);
            if !before.contains_key(k) {
                assert(chunk_wf(c0));
            }
        }
        chunk.set_block(lx, ly, lz, state);
        proof {
            if chunks_wf(before) || !before.contains_key(k) {
                lemma_set_keeps_wf(c0, *chunk, lx, ly, lz, id_of(state));
            }
        }
        proof {
            assert(self.chunks@ == before.insert(k, *chunk));
            if !before.contains_key(k) {
                assert(c0.x == cx && c0.z == cz && chunk_fresh(c0) && chunk_set_rel(c0, self.chunks@[k], lx, ly, lz, id_of(state)));
                assert(old(self).generator.generate_gives(cx, cz, chunk_view(c0)));
            }
            assert(self.chunks@.dom() =~= before.dom().insert(k));
            assert(cx == (pos.x as int / 16) as i32);
            assert(cz == (pos.z as int / 16) as i32);
            assert(lx == (pos.x as int % 16) as u8);
            assert(ly == (pos.y as int % 256) as u8);
            assert(lz == (pos.z as int % 16) as u8);
            assert(forall|k2: u64| k2 != k && before.contains_key(k2) ==> #[trigger] self.chunks@[k2] == before[k2]);
            assert(before.contains_key(k) ==> chunk_set_rel(before[k], self.chunks@[k], lx, ly, lz, id_of(state)));
            assert(world_set_rel(before, self.chunks@, pos, id_of(state)));
            assert(set_loads_generated(before, self.chunks@, old(self).generator, pos, id_of(state)));
        }
        Ok(())
    }

    /// Get block at world position: air outside heights 0 to 255 and in
    /// columns not loaded.
    pub fn get_block(&self, pos: BlockPos) -> (r: BlockState)
        requires
            target_ok(self.chunks@, pos),
        ensures
            r == state_of(world_block(self.chunks@, pos)),
    {
        if pos.y < 0 || pos.y >= 256 {
            return BlockState::Air;
        }
        let (cx, cz) = pos.to_chunk();
        let key = chunk_key(cx, cz);
        match self.chunks.get(&key) {
            Some(chunk) => {
                let (lx, ly, lz) = pos.local();
                proof {
                    lemma_local_in_range(lx, ly, lz);
                }
                chunk.get_block(lx, ly, lz)
            },
            None => BlockState::Air,
        }
    }

    /// Get spawn position.
    pub fn get_spawn_position(&self) -> (r: BlockPos)
        ensures
            r == self.spawn_position,
    {
        self.spawn_position
    }
}

} // verus!
