use rustmine::world::{layered_chunk, BlockPos, BlockState, Chunk, FlatGenerator, SubChunk, World, WorldGenerator, WorldError};
use std::sync::Arc;

#[test]
fn test_subchunk_index() {
    let chunk = SubChunk::new();
    assert_eq!(chunk.get_block(0, 0, 0), BlockState::Air);
}

#[test]
fn test_subchunk_set() {
    let mut chunk = SubChunk::new();
    chunk.set_block(0, 0, 0, BlockState::Stone);
    assert_eq!(chunk.get_block(0, 0, 0), BlockState::Stone);
}

#[test]
fn test_terrain_subchunk() {
    let chunk = SubChunk::with_terrain(8);
    assert_eq!(chunk.get_block(0, 0, 0), BlockState::Bedrock);
    assert_eq!(chunk.get_block(0, 7, 0), BlockState::Dirt);
    assert_eq!(chunk.get_block(0, 8, 0), BlockState::Grass);
    assert_eq!(chunk.get_block(0, 9, 0), BlockState::Air);
}

#[test]
fn test_chunk_terrain() {
    let chunk = Chunk::with_terrain(0, 0, 64);
    assert_eq!(chunk.get_block(8, 0, 8), BlockState::Bedrock);
    assert_eq!(chunk.get_block(8, 63, 8), BlockState::Grass);
}

#[test]
fn test_flat_generator() {
    let gen = FlatGenerator::new(64, 62);
    assert_eq!(gen.get_height(0, 0), 64);
    assert_eq!(gen.get_height(1000, -500), 64);
}

#[test]
fn test_world_chunk_generation() {
    let gen = Arc::new(FlatGenerator::new(64, 62)) as Arc<dyn WorldGenerator>;
    let mut world = World::new("test".to_string(), 0, gen);

    let chunk = world.get_chunk(0, 0);
    assert_eq!(chunk.x, 0);
    assert_eq!(chunk.z, 0);
}

#[test]
fn test_block_position() {
    let pos = BlockPos::new(20, 64, -5);
    let (cx, cz) = pos.to_chunk();
    assert_eq!(cx, 1);
    assert_eq!(cz, -1);

    let (lx, ly, lz) = pos.local();
    assert_eq!(lx, 4);
    assert_eq!(ly, 64);
    assert_eq!(lz, 11);
}

#[test]
fn runtime_ids_roundtrip() {
    for s in [BlockState::Air, BlockState::Stone, BlockState::Grass, BlockState::Bedrock, BlockState::Glass] {
        assert_eq!(BlockState::from_runtime_id(s.runtime_id()), s);
    }
    assert_eq!(BlockState::Air.runtime_id(), 0);
}

#[test]
fn world_set_then_get() {
    let gen = Arc::new(FlatGenerator::default()) as Arc<dyn WorldGenerator>;
    let mut world = World::new("w".to_string(), 7, gen);
    let pos = BlockPos::new(-20, 100, 33);
    assert!(world.set_block(pos, BlockState::Glass).is_ok());
    assert_eq!(world.get_block(pos), BlockState::Glass);
    // Another block in the same column is unchanged terrain.
    assert_eq!(world.get_block(BlockPos::new(-20, 0, 33)), BlockState::Bedrock);
    // Unloaded columns read as air.
    assert_eq!(world.get_block(BlockPos::new(5000, 10, 5000)), BlockState::Air);
    assert!(matches!(world.set_block(BlockPos::new(0, 300, 0), BlockState::Stone), Err(WorldError::BlockOutOfBounds(0, 300, 0))));
}

#[test]
fn spawn_is_on_the_surface() {
    let gen = Arc::new(FlatGenerator::new(70, 62)) as Arc<dyn WorldGenerator>;
    let world = World::new("w".to_string(), 0, gen);
    let s = world.get_spawn_position();
    assert_eq!((s.x, s.y, s.z), (0, 70, 0));
}

#[test]
fn loaded_chunk_is_the_generated_one() {
    let flat = FlatGenerator::new(64, 62);
    let expected = flat.generate_chunk(3, -2);
    let gen = Arc::new(flat) as Arc<dyn WorldGenerator>;
    let mut world = World::new("w".to_string(), 0, gen);
    assert_eq!(world.spawn_position, BlockPos::new(0, 64, 0));
    let chunk = world.get_chunk(3, -2);
    assert_eq!(chunk.subchunks.len(), expected.subchunks.len());
    for (a, b) in chunk.subchunks.iter().zip(expected.subchunks.iter()) {
        assert_eq!(a.palette, b.palette);
        assert_eq!(a.blocks, b.blocks);
    }
    world.set_block(BlockPos::new(48, 70, -32), BlockState::Stone).unwrap();
    world.get_chunk(3, -2);
    assert_eq!(world.get_block(BlockPos::new(48, 70, -32)), BlockState::Stone);
}

#[test]
fn layered_chunk_lays_out_columns() {
    let mut heights = [[64i32; 16]; 16];
    let mut trees = [[false; 16]; 16];
    trees[0][0] = true;
    heights[5][7] = 10;
    let c = layered_chunk(2, -1, &heights, &trees);
    assert_eq!((c.x, c.z), (2, -1));
    assert_eq!(c.get_block(0, 0, 0), BlockState::Bedrock);
    assert_eq!(c.get_block(0, 58, 0), BlockState::Stone);
    assert_eq!(c.get_block(0, 59, 0), BlockState::Dirt);
    assert_eq!(c.get_block(0, 63, 0), BlockState::OakLog);
    assert_eq!(c.get_block(1, 63, 1), BlockState::Grass);
    for y in 64..68 {
        assert_eq!(c.get_block(0, y, 0), BlockState::OakLeaves);
    }
    assert_eq!(c.get_block(0, 68, 0), BlockState::Air);
    assert_eq!(c.get_block(5, 9, 7), BlockState::Grass);
    assert_eq!(c.get_block(5, 14, 7), BlockState::Water);
    assert_eq!(c.get_block(5, 61, 7), BlockState::Water);
    assert_eq!(c.get_block(5, 62, 7), BlockState::Air);
    // Palettes start with air and take ids as x, z, y visits them.
    assert_eq!(c.subchunks[0].palette, vec![0, 10, 1, 3, 2, 7, 8]);
    assert_eq!(c.subchunks[3].palette[0], 0);
}
