//! Login handshake packet encoders.
//!
//! Covers the session-initiation packets that move a client into the
//! spawned world in offline mode: NetworkSettings, PlayStatus,
//! ResourcePacksInfo/Stack, StartGame and the packets sent around spawn.
//! Float fields are written from their IEEE-754 bit patterns.

use vstd::prelude::*;
use vstd::string::StringSliceAdditionalSpecFns;
use crate::bytes::{be_bytes, le_bytes, push_be, push_le};
use crate::codec::{packet_bytes, string_bytes, write_packet, write_string};
use crate::packet_id;
use crate::varint::{
    var_encoding, write_var_i32, write_var_i64, write_var_u32, write_var_u64, zigzag32,
};

verus! {

/// Minecraft version string matching the target protocol version.
pub const SUPPORTED_GAME_VERSION: &'static str = "1.26.30";

/// The all-zero UUID, as text.
pub const NIL_UUID: &'static str = "00000000-0000-0000-0000-000000000000";

// Play status codes.
pub const PLAY_STATUS_LOGIN_SUCCESS: i32 = 0;
pub const PLAY_STATUS_SPAWN: i32 = 3;
pub const PLAY_STATUS_PLAYER_SPAWN: i32 = 4;

pub const PROTOCOL_VERSION_NETWORK: u32 = 1001;

/// A signed VarInt.
pub open spec fn vi32(v: i32) -> Seq<u8> {
    var_encoding(zigzag32(v as int) as nat)
}

/// A signed VarLong.
pub open spec fn vi64(v: i64) -> Seq<u8> {
    var_encoding(zigzag32(v as int) as nat)
}

/// An unsigned VarInt or VarLong.
pub open spec fn vu(v: nat) -> Seq<u8> {
    var_encoding(v)
}

/// A string of the characters `c`: its UTF-8 byte count as a VarInt,
/// then its bytes.
pub open spec fn schars(c: Seq<char>) -> Seq<u8> {
    string_bytes(vstd::utf8::encode_utf8(c))
}

/// A string: its UTF-8 byte count as a VarInt, then its bytes.
pub open spec fn sbytes(s: &str) -> Seq<u8> {
    schars(s@)
}

/// `n` zero bytes.
pub open spec fn zero_bytes(n: nat) -> Seq<u8> {
    Seq::new(n, |i: int| 0u8)
}

fn write_str(buf: &mut Vec<u8>, s: &str)
    ensures
        final(buf)@ == old(buf)@ + sbytes(s),
{
    write_string(buf, s);
}

fn push_zeros(buf: &mut Vec<u8>, n: usize)
    ensures
        final(buf)@ == old(buf)@ + zero_bytes(n as nat),
{
    let mut i: usize = 0;
    while i < n
        invariant
            i <= n,
            buf@ == old(buf)@ + zero_bytes(i as nat),
        decreases n - i,
    {
        buf.push(0);
        i = i + 1;
        assert(buf@ =~= old(buf)@ + zero_bytes(i as nat));
    }
}

/// The NetworkSettings payload: the compression threshold, algorithm 0,
/// no client throttling, threshold 0 and a zero throttle scalar.
pub open spec fn network_settings_payload(compression_threshold: u16) -> Seq<u8> {
    le_bytes(compression_threshold as nat, 2) + le_bytes(0, 2) + seq![0u8, 0u8] + le_bytes(0, 4)
}

/// Encode a NetworkSettings (0x8f) packet.
pub fn network_settings(compression_threshold: u16) -> (r: Vec<u8>)
    ensures
        r@ == packet_bytes(packet_id::NETWORK_SETTINGS, network_settings_payload(compression_threshold)),
{
    let mut payload: Vec<u8> = Vec::new();
    push_le(&mut payload, compression_threshold as u64, 2);
    push_le(&mut payload, 0, 2);
    payload.push(0);
    payload.push(0);
    push_le(&mut payload, 0, 4);
    assert(payload@ =~= network_settings_payload(compression_threshold));
    write_packet(packet_id::NETWORK_SETTINGS, payload.as_slice())
}

/// The four big-endian bytes of a signed 32-bit value.
pub open spec fn be_i32(v: i32) -> Seq<u8> {
    be_bytes((v as u32) as nat, 4)
}

/// Encode a PlayStatus (0x02) packet with the given status code
/// (big-endian).
pub fn play_status(status: i32) -> (r: Vec<u8>)
    ensures
        r@ == packet_bytes(packet_id::PLAY_STATUS, be_i32(status)),
{
    let mut payload: Vec<u8> = Vec::new();
    push_be(&mut payload, (status as u32) as u64, 4);
    assert(payload@ =~= be_i32(status));
    write_packet(packet_id::PLAY_STATUS, payload.as_slice())
}

/// Encode a Disconnect (0x05) packet: the screen is shown, with the
/// message as a string.
pub fn disconnect(message: &str) -> (r: Vec<u8>)
    ensures
        r@ == packet_bytes(packet_id::DISCONNECT, seq![0u8] + sbytes(message)),
{
    let mut payload: Vec<u8> = Vec::new();
    payload.push(0);
    write_str(&mut payload, message);
    write_packet(packet_id::DISCONNECT, payload.as_slice())
}

/// The ResourcePacksInfo payload: four false flags and two empty pack
/// counts.
pub open spec fn resource_packs_info_payload() -> Seq<u8> {
    seq![0u8, 0u8, 0u8, 0u8] + le_bytes(0, 2) + le_bytes(0, 2)
}

/// Encode a ResourcePacksInfo (0x06) packet with no packs.
pub fn resource_packs_info() -> (r: Vec<u8>)
    ensures
        r@ == packet_bytes(packet_id::RESOURCE_PACKS_INFO, resource_packs_info_payload()),
{
    let mut payload: Vec<u8> = Vec::new();
    payload.push(0);
    payload.push(0);
    payload.push(0);
    payload.push(0);
    push_le(&mut payload, 0, 2);
    push_le(&mut payload, 0, 2);
    assert(payload@ =~= resource_packs_info_payload());
    write_packet(packet_id::RESOURCE_PACKS_INFO, payload.as_slice())
}

/// The ResourcePackStack payload: not required, no packs, the game
/// version, no experiments, and the game version again as base version.
pub open spec fn resource_pack_stack_payload() -> Seq<u8> {
    seq![0u8] + vu(0) + vu(0) + sbytes(SUPPORTED_GAME_VERSION) + vu(0) + seq![0u8] + sbytes(
        SUPPORTED_GAME_VERSION,
    )
}

/// Encode a ResourcePackStack (0x07) with no packs.
pub fn resource_pack_stack() -> (r: Vec<u8>)
    ensures
        r@ == packet_bytes(packet_id::RESOURCE_PACK_STACK, resource_pack_stack_payload()),
{
    let mut payload: Vec<u8> = Vec::new();
    payload.push(0);
    write_var_u32(&mut payload, 0);
    write_var_u32(&mut payload, 0);
    let mut ver: Vec<u8> = Vec::new();
    write_str(&mut ver, SUPPORTED_GAME_VERSION);
    crate::bytes::append_bytes(&mut payload, ver.as_slice());
    write_var_u32(&mut payload, 0);
    payload.push(0);
    crate::bytes::append_bytes(&mut payload, ver.as_slice());
    assert(payload@ =~= resource_pack_stack_payload());
    write_packet(packet_id::RESOURCE_PACK_STACK, payload.as_slice())
}

/// The SetSpawnPosition payload: world spawn type, block (0, 64, 0),
/// overworld, not forced, zero angle.
pub open spec fn set_spawn_position_payload() -> Seq<u8> {
    vi32(2) + vi32(0) + vi32(64) + vi32(0) + vi32(0) + seq![0u8] + le_bytes(0, 4)
}

/// Encode a minimal SetSpawnPosition (0x2b).
pub fn set_spawn_position() -> (r: Vec<u8>)
    ensures
        r@ == packet_bytes(packet_id::SET_SPAWN_POSITION, set_spawn_position_payload()),
{
    let mut p: Vec<u8> = Vec::new();
    write_var_i32(&mut p, 2);
    write_var_i32(&mut p, 0);
    write_var_i32(&mut p, 64);
    write_var_i32(&mut p, 0);
    write_var_i32(&mut p, 0);
    p.push(0);
    push_le(&mut p, 0, 4);
    assert(p@ =~= set_spawn_position_payload());
    write_packet(packet_id::SET_SPAWN_POSITION, p.as_slice())
}

/// Encode a SetTime (0x0a) packet (big-endian time).
pub fn set_time(time: i32) -> (r: Vec<u8>)
    ensures
        r@ == packet_bytes(packet_id::SET_TIME, be_i32(time)),
{
    let mut p: Vec<u8> = Vec::new();
    push_be(&mut p, (time as u32) as u64, 4);
    assert(p@ =~= be_i32(time));
    write_packet(packet_id::SET_TIME, p.as_slice())
}

/// Encode SetDifficulty (0x3c): the difficulty as an unsigned VarInt.
pub fn set_difficulty(difficulty: u32) -> (r: Vec<u8>)
    ensures
        r@ == packet_bytes(packet_id::SET_DIFFICULTY, vu(difficulty as nat)),
{
    let mut p: Vec<u8> = Vec::new();
    write_var_u32(&mut p, difficulty);
    write_packet(packet_id::SET_DIFFICULTY, p.as_slice())
}

/// Encode SetPlayerGameType (0x3e): the game mode as a signed VarInt.
pub fn set_player_game_type(gamemode: u32) -> (r: Vec<u8>)
    ensures
        r@ == packet_bytes(packet_id::SET_PLAYER_GAME_TYPE, vi32(gamemode as i32)),
{
    let mut p: Vec<u8> = Vec::new();
    write_var_i32(&mut p, gamemode as i32);
    write_packet(packet_id::SET_PLAYER_GAME_TYPE, p.as_slice())
}

/// Encode ChunkRadiusUpdated (0x46) replying with the view distance.
pub fn chunk_radius_updated(radius: i32) -> (r: Vec<u8>)
    ensures
        r@ == packet_bytes(packet_id::CHUNK_RADIUS_UPDATED, vi32(radius)),
{
    let mut p: Vec<u8> = Vec::new();
    write_var_i32(&mut p, radius);
    write_packet(packet_id::CHUNK_RADIUS_UPDATED, p.as_slice())
}

/// Encode a PlayStatus(PlayerSpawn) packet which lets the client spawn.
pub fn play_status_player_spawn() -> (r: Vec<u8>)
    ensures
        r@ == packet_bytes(packet_id::PLAY_STATUS, be_i32(PLAY_STATUS_PLAYER_SPAWN)),
{
    play_status(PLAY_STATUS_PLAYER_SPAWN)
}

/// Encode BiomeDefinitionList (0x7a) as a single NBT End tag.
pub fn biome_definition_list() -> (r: Vec<u8>)
    ensures
        r@ == packet_bytes(packet_id::BIOME_DEFINITION_LIST, seq![0u8]),
{
    let mut p: Vec<u8> = Vec::new();
    p.push(0);
    write_packet(packet_id::BIOME_DEFINITION_LIST, p.as_slice())
}

/// Encode NetworkChunkPublisherUpdate (0x79) with a radius.
pub fn network_chunk_publisher_update(coords: (i32, i32, i32), radius: u32) -> (r: Vec<u8>)
    ensures
        r@ == packet_bytes(
            packet_id::NETWORK_CHUNK_PUBLISHER_UPDATE,
            crate::chunk::publisher_update_payload(coords, radius),
        ),
{
    crate::chunk::network_chunk_publisher_update(coords, radius)
}

/// The minimal all-air subchunk sent by `empty_level_chunk`: version 8,
/// one storage, y index 0, one bit per block, 128 zero words, a palette
/// holding only air.
pub open spec fn minimal_subchunk() -> Seq<u8> {
    seq![8u8, 1u8, 0u8, 1u8] + zero_bytes(512) + vu(1) + vu(0)
}

/// The LevelChunk payload of an empty chunk: coordinates, the subchunk
/// count, no cache, then the minimal subchunk after its length.
pub open spec fn empty_level_chunk_payload(chunk_x: i32, chunk_z: i32, subchunk_count: u8) -> Seq<u8> {
    vi32(chunk_x) + vi32(chunk_z) + le_bytes(subchunk_count as nat, 4) + seq![0u8] + le_bytes(
        minimal_subchunk().len(),
        4,
    ) + minimal_subchunk()
}

/// Encode the LevelChunk (0x3a) packet for a single empty (air) chunk.
pub fn empty_level_chunk(chunk_x: i32, chunk_z: i32, subchunk_count: u8) -> (r: Vec<u8>)
    ensures
        r@ == packet_bytes(
            packet_id::LEVEL_CHUNK,
            empty_level_chunk_payload(chunk_x, chunk_z, subchunk_count),
        ),
{
    let mut p: Vec<u8> = Vec::new();
    write_var_i32(&mut p, chunk_x);
    write_var_i32(&mut p, chunk_z);
    push_le(&mut p, subchunk_count as u64, 4);
    p.push(0);
    let mut chunk_data: Vec<u8> = Vec::new();
    chunk_data.push(8);
    chunk_data.push(1);
    chunk_data.push(0);
    chunk_data.push(1);
    push_zeros(&mut chunk_data, 512);
    write_var_u32(&mut chunk_data, 1);
    write_var_u32(&mut chunk_data, 0);
    assert(chunk_data@ =~= minimal_subchunk());
    push_le(&mut p, chunk_data.len() as u64, 4);
    crate::bytes::append_bytes(&mut p, chunk_data.as_slice());
    assert(p@ =~= empty_level_chunk_payload(chunk_x, chunk_z, subchunk_count));
    write_packet(packet_id::LEVEL_CHUNK, p.as_slice())
}


/// StartGame, first part: the entity ids, the game mode, the position (as
/// float bit patterns) and a zero yaw and pitch.
pub open spec fn start_game_head(
    entity_id: i64,
    runtime_id: u64,
    player_gamemode: u32,
    spawn: (u32, u32, u32),
) -> Seq<u8> {
    vi64(entity_id) + vu(runtime_id as nat) + vi32(player_gamemode as i32) + le_bytes(
        spawn.0 as nat,
        4,
    ) + le_bytes(spawn.1 as nat, 4) + le_bytes(spawn.2 as nat, 4) + le_bytes(0, 4) + le_bytes(0, 4)
}

/// StartGame, world settings up to the education product id: seed,
/// biome, dimension, flat generator, game mode, difficulty 1, spawn
/// (0, 64, 0), and the editor and education flags.
pub open spec fn start_game_world(player_gamemode: u32, seed: i64) -> Seq<u8> {
    vi64(seed) + vi32(seed as i32) + seq![0u8] + sbytes("") + vi32(0) + vi32(1) + vi32(
        player_gamemode as i32,
    ) + vi32(1) + vi32(0) + vi32(64) + vi32(0) + seq![1u8] + vi32(0) + seq![0u8, 0u8] + vi32(-1i32)
        + vi32(0) + seq![0u8] + sbytes("")
}

/// StartGame, world settings from the weather to the permission fields:
/// no rain or lightning, multiplayer flags, no game rules or experiments,
/// member permission, chunk tick range 4, and ten false template and skin
/// flags.
pub open spec fn start_game_rules() -> Seq<u8> {
    le_bytes(0, 4) + le_bytes(0, 4) + seq![0u8, 1u8, 1u8] + vi32(0) + vi32(0) + seq![1u8, 0u8] + vu(0)
        + vu(0) + seq![0u8, 0u8, 0u8] + vi32(1) + le_bytes(4, 4) + zero_bytes(10)
}

/// StartGame, rest of the world settings: the game version, no world size
/// limit, the new nether, and empty education, server, world and scenario
/// ids.
pub open spec fn start_game_versions() -> Seq<u8> {
    sbytes(SUPPORTED_GAME_VERSION) + le_bytes(0, 4) + le_bytes(0, 4) + seq![0u8, 1u8] + sbytes("")
        + seq![0u8, 0u8, 0u8] + sbytes("") + sbytes("") + sbytes("")
}

/// StartGame, level part: the level id and name, the nil template id,
/// movement and tick fields, empty block and item tables, the nil
/// correlation id, inventory and engine fields, a zero checksum and
/// template UUID, and the trailing flags.
pub open spec fn start_game_level(world_name: Seq<char>) -> Seq<u8> {
    schars(world_name) + schars(world_name) + sbytes(NIL_UUID) + seq![0u8] + vi32(0) + le_bytes(40, 4)
        + seq![0u8] + le_bytes(0, 8) + vi32(0) + seq![0u8, 0u8] + sbytes(NIL_UUID) + seq![1u8, 0u8]
        + le_bytes(0, 4) + zero_bytes(16) + seq![0u8, 0u8] + vi32(0) + vi32(0)
}

/// The StartGame payload.
pub open spec fn start_game_payload(
    entity_id: i64,
    runtime_id: u64,
    player_gamemode: u32,
    spawn: (u32, u32, u32),
    seed: i64,
    world_name: Seq<char>,
) -> Seq<u8> {
    start_game_head(entity_id, runtime_id, player_gamemode, spawn) + start_game_world(
        player_gamemode,
        seed,
    ) + start_game_rules() + start_game_versions() + start_game_level(world_name)
}

fn write_start_game_head(
    p: &mut Vec<u8>,
    entity_id: i64,
    runtime_id: u64,
    player_gamemode: u32,
    spawn: (u32, u32, u32),
)
    ensures
        final(p)@ == old(p)@ + start_game_head(entity_id, runtime_id, player_gamemode, spawn),
{
    write_var_i64(p, entity_id);
    write_var_u64(p, runtime_id);
    write_var_i32(p, player_gamemode as i32);
    push_le(p, spawn.0 as u64, 4);
    push_le(p, spawn.1 as u64, 4);
    push_le(p, spawn.2 as u64, 4);
    push_le(p, 0, 4);
    push_le(p, 0, 4);
    assert(p@ =~= old(p)@ + start_game_head(entity_id, runtime_id, player_gamemode, spawn));
}

fn write_start_game_world(p: &mut Vec<u8>, player_gamemode: u32, seed: i64)
    ensures
        final(p)@ == old(p)@ + start_game_world(player_gamemode, seed),
{
    let ghost p0 = p@;
    write_var_i64(p, seed);
    write_var_i32(p, seed as i32);
    p.push(0);
    write_str(p, "");
    write_var_i32(p, 0);
    write_var_i32(p, 1);
    write_var_i32(p, player_gamemode as i32);
    write_var_i32(p, 1);
    let ghost mid = p@;
    assert(mid =~= p0 + (vi64(seed) + vi32(seed as i32) + seq![0u8] + sbytes("") + vi32(0) + vi32(1)
        + vi32(player_gamemode as i32) + vi32(1)));
    write_var_i32(p, 0);
    write_var_i32(p, 64);
    write_var_i32(p, 0);
    p.push(1);
    write_var_i32(p, 0);
    p.push(0);
    p.push(0);
    write_var_i32(p, -1);
    write_var_i32(p, 0);
    p.push(0);
    write_str(p, "");
    assert(p@ =~= mid + (vi32(0) + vi32(64) + vi32(0) + seq![1u8] + vi32(0) + seq![0u8, 0u8] + vi32(
        -1i32,
    ) + vi32(0) + seq![0u8] + sbytes("")));
    assert(p@ =~= p0 + start_game_world(player_gamemode, seed));
}

fn write_start_game_rules(p: &mut Vec<u8>)
    ensures
        final(p)@ == old(p)@ + start_game_rules(),
{
    push_le(p, 0, 4);
    push_le(p, 0, 4);
    p.push(0);
    p.push(1);
    p.push(1);
    write_var_i32(p, 0);
    write_var_i32(p, 0);
    p.push(1);
    p.push(0);
    write_var_u32(p, 0);
    write_var_u32(p, 0);
    p.push(0);
    p.push(0);
    p.push(0);
    write_var_i32(p, 1);
    push_le(p, 4, 4);
    push_zeros(p, 10);
    assert(p@ =~= old(p)@ + start_game_rules());
}

fn write_start_game_versions(p: &mut Vec<u8>)
    ensures
        final(p)@ == old(p)@ + start_game_versions(),
{
    write_str(p, SUPPORTED_GAME_VERSION);
    push_le(p, 0, 4);
    push_le(p, 0, 4);
    p.push(0);
    p.push(1);
    write_str(p, "");
    p.push(0);
    p.push(0);
    p.push(0);
    write_str(p, "");
    write_str(p, "");
    write_str(p, "");
    assert(p@ =~= old(p)@ + start_game_versions());
}

fn write_start_game_level(p: &mut Vec<u8>, world_name: &str)
    ensures
        final(p)@ == old(p)@ + start_game_level(world_name@),
{
    let ghost p0 = p@;
    write_str(p, world_name);
    write_str(p, world_name);
    write_str(p, NIL_UUID);
    p.push(0);
    write_var_i32(p, 0);
    push_le(p, 40, 4);
    p.push(0);
    push_le(p, 0, 8);
    write_var_i32(p, 0);
    p.push(0);
    p.push(0);
    let ghost mid = p@;
    assert(mid =~= p0 + (schars(world_name@) + schars(world_name@) + sbytes(NIL_UUID) + seq![0u8]
        + vi32(0) + le_bytes(40, 4) + seq![0u8] + le_bytes(0, 8) + vi32(0) + seq![0u8, 0u8]));
    write_str(p, NIL_UUID);
    p.push(1);
    p.push(0);
    push_le(p, 0, 4);
    push_zeros(p, 16);
    p.push(0);
    p.push(0);
    write_var_i32(p, 0);
    write_var_i32(p, 0);
    assert(p@ =~= mid + (sbytes(NIL_UUID) + seq![1u8, 0u8] + le_bytes(0, 4) + zero_bytes(16)
        + seq![0u8, 0u8] + vi32(0) + vi32(0)));
    assert(p@ =~= p0 + start_game_level(world_name@));
}

/// Encode a StartGame (0x0b) packet sufficient to drop the client into the
/// world; `spawn` holds the IEEE-754 bit patterns of the position.
pub fn start_game(
    entity_id: i64,
    runtime_id: u64,
    player_gamemode: u32,
    spawn: (u32, u32, u32),
    seed: i64,
    world_name: &str,
) -> (r: Vec<u8>)
    ensures
        r@ == packet_bytes(
            packet_id::START_GAME,
            start_game_payload(entity_id, runtime_id, player_gamemode, spawn, seed, world_name@),
        ),
{
    let mut p: Vec<u8> = Vec::new();
    write_start_game_head(&mut p, entity_id, runtime_id, player_gamemode, spawn);
    write_start_game_world(&mut p, player_gamemode, seed);
    write_start_game_rules(&mut p);
    write_start_game_versions(&mut p);
    write_start_game_level(&mut p, world_name);
    assert(p@ =~= start_game_payload(entity_id, runtime_id, player_gamemode, spawn, seed, world_name@));
    write_packet(packet_id::START_GAME, p.as_slice())
}

/// The PlayerList add payload for one offline player: a nil UUID, the
/// entity id, name and xuid, and the smallest skin that parses (empty
/// ids and images, wide arms).
pub open spec fn player_list_add_payload(xuid: Seq<char>, username: Seq<char>, entity_id: i64) -> Seq<u8> {
    seq![0u8] + vu(1) + zero_bytes(16) + vi64(entity_id) + schars(username) + schars(xuid) + sbytes("")
        + le_bytes(0, 4) + sbytes("") + sbytes("") + sbytes("") + sbytes("") + sbytes("") + sbytes("")
        + le_bytes(0, 4) + le_bytes(0, 4) + vu(0) + vu(0) + le_bytes(0, 4) + le_bytes(0, 4) + vu(0)
        + seq![0u8, 0u8, 0u8, 1u8] + sbytes("") + sbytes("") + sbytes("wide") + vu(0) + vu(0)
        + le_bytes(0, 4)
}

/// Encode a PlayerList (0x3f) add entry for the local player.
pub fn player_list_add(xuid: &str, username: &str, entity_id: i64) -> (r: Vec<u8>)
    ensures
        r@ == packet_bytes(packet_id::PLAYER_LIST, player_list_add_payload(xuid@, username@, entity_id)),
{
    let mut p: Vec<u8> = Vec::new();
    p.push(0);
    write_var_u32(&mut p, 1);
    push_zeros(&mut p, 16);
    write_var_i64(&mut p, entity_id);
    write_str(&mut p, username);
    write_str(&mut p, xuid);
    write_str(&mut p, "");
    push_le(&mut p, 0, 4);
    write_str(&mut p, "");
    write_str(&mut p, "");
    write_str(&mut p, "");
    write_str(&mut p, "");
    write_str(&mut p, "");
    write_str(&mut p, "");
    let ghost mid = p@;
    assert(mid =~= seq![0u8] + vu(1) + zero_bytes(16) + vi64(entity_id) + schars(username@) + schars(
        xuid@,
    ) + sbytes("") + le_bytes(0, 4) + sbytes("") + sbytes("") + sbytes("") + sbytes("") + sbytes("")
        + sbytes(""));
    push_le(&mut p, 0, 4);
    push_le(&mut p, 0, 4);
    write_var_u32(&mut p, 0);
    write_var_u32(&mut p, 0);
    push_le(&mut p, 0, 4);
    push_le(&mut p, 0, 4);
    write_var_u32(&mut p, 0);
    p.push(0);
    p.push(0);
    p.push(0);
    p.push(1);
    write_str(&mut p, "");
    write_str(&mut p, "");
    write_str(&mut p, "wide");
    write_var_u32(&mut p, 0);
    write_var_u32(&mut p, 0);
    push_le(&mut p, 0, 4);
    assert(p@ =~= mid + (le_bytes(0, 4) + le_bytes(0, 4) + vu(0) + vu(0) + le_bytes(0, 4) + le_bytes(
        0,
        4,
    ) + vu(0) + seq![0u8, 0u8, 0u8, 1u8] + sbytes("") + sbytes("") + sbytes("wide") + vu(0) + vu(0)
        + le_bytes(0, 4)));
    assert(p@ =~= player_list_add_payload(xuid@, username@, entity_id));
    write_packet(packet_id::PLAYER_LIST, p.as_slice())
}

} // verus!
