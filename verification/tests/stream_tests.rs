use rustmine::game::GameOutput;
use rustmine::packet_id;
use rustmine::raknet_packet::NetAddress;
use rustmine::session::SessionState;
use rustmine::stream::{chunk_packets_around, output_packet, spawned_targets};
use rustmine::world::{chunk_key, BlockPos, BlockState, FlatGenerator, World, WorldGenerator};
use std::sync::Arc;

#[test]
fn chunks_around_a_player() {
    let gen = Arc::new(FlatGenerator::default()) as Arc<dyn WorldGenerator>;
    let mut world = World::new("w".to_string(), 0, gen);
    let packets = chunk_packets_around(&mut world, 1, -1, 2);
    assert_eq!(packets.len(), 25);
    assert!(packets.iter().all(|p| p[0] == packet_id::LEVEL_CHUNK));
    assert_eq!(world.chunks.len(), 25);
    // Loading the same area again gives the same bytes.
    let again = chunk_packets_around(&mut world, 1, -1, 2);
    assert_eq!(packets, again);
    assert_eq!(chunk_packets_around(&mut world, 0, 0, 0).len(), 1);
}

#[test]
fn game_outputs_to_packets() {
    let p = output_packet(&GameOutput::TimeUpdate { time: 6001 }).unwrap();
    assert_eq!(p, vec![packet_id::SET_TIME, 0, 0, 0x17, 0x71]);
    let p = output_packet(&GameOutput::ChunkData { chunk_x: 0, chunk_z: 0, data: vec![1, 2] }).unwrap();
    assert_eq!(p, vec![1, 2]);
    assert!(output_packet(&GameOutput::PlayerDespawned { entity_id: 1 }).is_none());
}

#[test]
fn only_spawned_sessions_are_targets() {
    let a = NetAddress::V4 { ipv4: 1, port: 1 };
    let b = NetAddress::V4 { ipv4: 2, port: 2 };
    let c = NetAddress::V6 { ipv6: 3, port: 3 };
    let targets = spawned_targets(&vec![(a, SessionState::Spawned), (b, SessionState::WaitLogin), (c, SessionState::Spawned)]);
    assert_eq!(targets, vec![a, c]);
}

#[test]
fn loaded_columns_are_generated_terrain() {
    let flat = FlatGenerator::default();
    let expected = flat.generate_chunk(2, 0);
    let gen = Arc::new(flat) as Arc<dyn WorldGenerator>;
    let mut world = World::new("w".to_string(), 0, gen);
    chunk_packets_around(&mut world, 1, 0, 1);
    assert_eq!(world.chunks.len(), 9);
    let c = &world.chunks[&chunk_key(2, 0)];
    assert_eq!((c.x, c.z), (2, 0));
    for (a, b) in c.subchunks.iter().zip(expected.subchunks.iter()) {
        assert_eq!(a.palette, b.palette);
        assert_eq!(a.blocks, b.blocks);
    }
    assert_eq!(world.get_block(BlockPos::new(32, 0, 0)), BlockState::Bedrock);
    assert_eq!(world.get_block(BlockPos::new(32, 63, 0)), BlockState::Grass);
    assert!(!world.chunks.contains_key(&chunk_key(3, 0)));
}
