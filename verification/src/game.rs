//! Game rules: game modes, difficulty, the time of day, the players and
//! the tick that turns game events into what the network layer sends.
//! Floating-point quantities (positions, rotations, health, weather) are
//! held as their IEEE-754 bit patterns; the rules only store and copy them.

use vstd::prelude::*;
use std::collections::HashMap;
use std::collections::hash_map::Entry;

verus! {

/// Game-related errors.
#[derive(Debug, Clone, PartialEq, Eq)]
pub enum GameError {
    EntityNotFound(i64),
    PlayerNotFound(String),
    InvalidPosition(String),
    BlockInteraction(String),
}

/// Game modes.
#[derive(Debug, Clone, Copy, PartialEq, Eq, Structural)]
pub enum Gamemode {
    Survival,
    Creative,
    Adventure,
    Spectator,
}

/// The wire number of a game mode.
pub open spec fn gamemode_number(g: Gamemode) -> u32 {
    match g {
        Gamemode::Survival => 0,
        Gamemode::Creative => 1,
        Gamemode::Adventure => 2,
        Gamemode::Spectator => 3,
    }
}

/// The game mode of a wire number; survival for unknown numbers.
pub open spec fn gamemode_of(v: u32) -> Gamemode {
    if v == 1 {
        Gamemode::Creative
    } else if v == 2 {
        Gamemode::Adventure
    } else if v == 3 {
        Gamemode::Spectator
    } else {
        Gamemode::Survival
    }
}

impl Gamemode {
    pub fn from_u32(v: u32) -> (r: Self)
        ensures
            r == gamemode_of(v),
    {
        match v {
            0 => Gamemode::Survival,
            1 => Gamemode::Creative,
            2 => Gamemode::Adventure,
            3 => Gamemode::Spectator,
            _ => Gamemode::Survival,
        }
    }

    pub fn as_u32(&self) -> (r: u32)
        ensures
            r == gamemode_number(*self),
    {
        match self {
            Gamemode::Survival => 0,
            Gamemode::Creative => 1,
            Gamemode::Adventure => 2,
            Gamemode::Spectator => 3,
        }
    }
}

/// A game mode comes back from its number; a number below 4 comes back
/// from its game mode, any other reads as survival.
pub proof fn law_gamemode_roundtrip(g: Gamemode, v: u32)
    ensures
        gamemode_of(gamemode_number(g)) == g,
        v < 4 ==> gamemode_number(gamemode_of(v)) == v,
        v >= 4 ==> gamemode_of(v) == Gamemode::Survival,
{
}

/// Time of day in Minecraft ticks (0-24000).
#[derive(Debug, Clone, Copy)]
pub struct TimeOfDay {
    ticks: u32,
}

/// Ticks in a whole day.
pub const TICKS_PER_DAY: u32 = 24000;

impl TimeOfDay {
    #[verifier::type_invariant]
    spec fn within_day(self) -> bool {
        self.ticks < 24000
    }

    /// The tick count within the day.
    pub closed spec fn spec_ticks(self) -> u32 {
        self.ticks
    }

    /// The time `ticks` into a day (wrapping whole days).
    pub fn new(ticks: u32) -> (r: Self)
        ensures
            r.spec_ticks() == ticks % 24000,
    {
        TimeOfDay { ticks: ticks % TICKS_PER_DAY }
    }

    /// The time at the start of hour `hours` (1000 ticks an hour).
    pub fn from_hours(hours: u32) -> (r: Self)
        requires
            hours * 1000 <= u32::MAX,
        ensures
            r.spec_ticks() == (hours * 1000) % 24000,
    {
        Self::new(hours * 1000)
    }

    pub fn ticks(&self) -> (r: u32)
        ensures
            r == self.spec_ticks(),
            r < 24000,
    {
        proof {
            use_type_invariant(self);
        }
        self.ticks
    }

    /// Day is the first half of the day's ticks.
    pub fn is_day(&self) -> (r: bool)
        ensures
            r == (self.spec_ticks() < 12000),
    {
        self.ticks < 12000
    }

    pub fn is_night(&self) -> (r: bool)
        ensures
            r == !(self.spec_ticks() < 12000),
    {
        !self.is_day()
    }
}

impl Default for TimeOfDay {
    /// Noon.
    fn default() -> (r: Self)
        ensures
            r.spec_ticks() == 6000,
    {
        Self::new(6000)
    }
}

/// Difficulty level.
#[derive(Debug, Clone, Copy, PartialEq, Eq, Structural)]
pub enum Difficulty {
    Peaceful,
    Easy,
    Normal,
    Hard,
}

/// The wire number of a difficulty.
pub open spec fn difficulty_number(d: Difficulty) -> u32 {
    match d {
        Difficulty::Peaceful => 0,
        Difficulty::Easy => 1,
        Difficulty::Normal => 2,
        Difficulty::Hard => 3,
    }
}

/// The difficulty of a wire number; normal for unknown numbers.
pub open spec fn difficulty_of(v: u32) -> Difficulty {
    if v == 0 {
        Difficulty::Peaceful
    } else if v == 1 {
        Difficulty::Easy
    } else if v == 3 {
        Difficulty::Hard
    } else {
        Difficulty::Normal
    }
}

impl Difficulty {
    pub fn from_u32(v: u32) -> (r: Self)
        ensures
            r == difficulty_of(v),
    {
        match v {
            0 => Difficulty::Peaceful,
            1 => Difficulty::Easy,
            2 => Difficulty::Normal,
            3 => Difficulty::Hard,
            _ => Difficulty::Normal,
        }
    }

    pub fn as_u32(&self) -> (r: u32)
        ensures
            r == difficulty_number(*self),
    {
        match self {
            Difficulty::Peaceful => 0,
            Difficulty::Easy => 1,
            Difficulty::Normal => 2,
            Difficulty::Hard => 3,
        }
    }
}

/// A difficulty comes back from its number; a number below 4 comes back
/// from its difficulty, any other reads as normal.
pub proof fn law_difficulty_roundtrip(d: Difficulty, v: u32)
    ensures
        difficulty_of(difficulty_number(d)) == d,
        v < 4 ==> difficulty_number(difficulty_of(v)) == v,
        v >= 4 ==> difficulty_of(v) == Difficulty::Normal,
{
}

/// Player interaction types.
#[derive(Debug, Clone, Copy, PartialEq, Eq, Structural)]
pub enum InteractAction {
    LeftClick,
    RightClick,
    Leave,
}

/// Event sent by the game to the network layer.
#[derive(Debug, Clone)]
pub enum GameOutput {
    PlayerSpawned { entity_id: i64, username: String },
    PlayerDespawned { entity_id: i64 },
    ChunkData { chunk_x: i32, chunk_z: i32, data: Vec<u8> },
    BlockUpdate { x: i32, y: i32, z: i32, block_id: u32 },
    TimeUpdate { time: u32 },
    ChatMessage { sender: String, message: String },
}

/// Game tick configuration.
pub const TICKS_PER_SECOND: u32 = 20;

pub const TICK_DURATION_MS: u64 = 50;

broadcast use vstd::std_specs::hash::group_hash_axioms;

/// The bit pattern of the `f32` 70.0.
pub const F32_70: u32 = 0x428c_0000;

/// The bit pattern of the `f32` 20.0.
pub const F32_20: u32 = 0x41a0_0000;

/// A 3D vector of `f32` values, each held as its bit pattern.
#[derive(Debug, Clone, Copy, PartialEq, Eq, Structural)]
pub struct Vec3 {
    pub x: u32,
    pub y: u32,
    pub z: u32,
}

impl Vec3 {
    pub fn new(x: u32, y: u32, z: u32) -> (r: Self)
        ensures
            r == (Vec3 { x, y, z }),
    {
        Vec3 { x, y, z }
    }
}

/// Player rotation (yaw, pitch), each held as its bit pattern.
#[derive(Debug, Clone, Copy, PartialEq, Eq, Structural)]
pub struct Rotation {
    pub yaw: u32,
    pub pitch: u32,
}

impl Default for Rotation {
    fn default() -> (r: Self)
        ensures
            r == (Rotation { yaw: 0, pitch: 0 }),
    {
        Rotation { yaw: 0, pitch: 0 }
    }
}

/// Player entity data.
#[derive(Debug, Clone)]
pub struct PlayerData {
    pub entity_id: i64,
    pub username: String,
    pub position: Vec3,
    pub velocity: Vec3,
    pub rotation: Rotation,
    pub gamemode: Gamemode,
    /// Health, as the bit pattern of an `f32`.
    pub health: u32,
    pub hunger: u32,
    pub on_ground: bool,
    pub sneaking: bool,
    pub sprinting: bool,
    pub view_distance: u32,
}

/// `p` is a player just joined as `username`: at (0, 70, 0), still,
/// facing ahead, in survival, with full health (20) and hunger (20), on
/// no flag, seeing 10 chunks.
pub open spec fn new_player(p: PlayerData, entity_id: i64, username: String) -> bool {
    &&& p.entity_id == entity_id
    &&& p.username == username
    &&& p.position == (Vec3 { x: 0, y: F32_70, z: 0 })
    &&& p.velocity == (Vec3 { x: 0, y: 0, z: 0 })
    &&& p.rotation == (Rotation { yaw: 0, pitch: 0 })
    &&& p.gamemode == Gamemode::Survival
    &&& p.health == F32_20
    &&& p.hunger == 20
    &&& !p.on_ground
    &&& !p.sneaking
    &&& !p.sprinting
    &&& p.view_distance == 10
}

impl PlayerData {
    pub fn new(entity_id: i64, username: String) -> (r: Self)
        ensures
            new_player(r, entity_id, username),
    {
        PlayerData {
            entity_id,
            username,
            position: Vec3::new(0, F32_70, 0),
            velocity: Vec3::new(0, 0, 0),
            rotation: Rotation::default(),
            gamemode: Gamemode::Survival,
            health: F32_20,
            hunger: 20,
            on_ground: false,
            sneaking: false,
            sprinting: false,
            view_distance: 10,
        }
    }
}

/// World time and weather state.
#[derive(Debug, Clone)]
pub struct WorldState {
    pub time: TimeOfDay,
    pub difficulty: Difficulty,
    /// Rain level, as the bit pattern of an `f32`.
    pub rain_level: u32,
    /// Lightning level, as the bit pattern of an `f32`.
    pub lightning_level: u32,
    pub spawn_protection: u32,
}

impl Default for WorldState {
    /// Noon, normal difficulty, no rain or lightning, 16 blocks of spawn
    /// protection.
    fn default() -> (r: Self)
        ensures
            r.time.spec_ticks() == 6000,
            r.difficulty == Difficulty::Normal,
            r.rain_level == 0,
            r.lightning_level == 0,
            r.spawn_protection == 16,
    {
        WorldState {
            time: TimeOfDay::default(),
            difficulty: Difficulty::Normal,
            rain_level: 0,
            lightning_level: 0,
            spawn_protection: 16,
        }
    }
}

/// Game event types for tick processing.
#[derive(Debug)]
pub enum GameEvent {
    PlayerJoin(i64),
    PlayerLeave(i64),
    PlayerMove(i64, Vec3, Rotation),
    PlayerInteract(i64, (i32, i32, i32), InteractAction),
    PlayerChat(i64, String),
    PlayerCommand(i64, String),
    BlockBreak(i64, (i32, i32, i32)),
    BlockPlace(i64, (i32, i32, i32), u32),
}

/// `outs` and the players `new` are what the event `e` gives on the
/// players `old`: a join announces a known player's spawn under their
/// name; a leave removes the player and announces it; a move records a
/// known player's position and rotation; a break updates the block to air
/// and a place to the placed id; a chat from a known player goes out under
/// their name; commands and interactions change nothing here.
pub open spec fn event_handled(
    old: Map<i64, PlayerData>,
    new: Map<i64, PlayerData>,
    e: GameEvent,
    outs: Seq<GameOutput>,
) -> bool {
    match e {
        GameEvent::PlayerJoin(id) => {
            &&& new == old
            &&& if old.contains_key(id) {
                &&& outs.len() == 1
                &&& outs[0] matches GameOutput::PlayerSpawned { entity_id, username }
                &&& entity_id == id
                &&& username@ == old[id].username@
            } else {
                outs.len() == 0
            }
        },
        GameEvent::PlayerLeave(id) => {
            &&& new == old.remove(id)
            &&& if old.contains_key(id) {
                outs == seq![GameOutput::PlayerDespawned { entity_id: id }]
            } else {
                outs.len() == 0
            }
        },
        GameEvent::PlayerMove(id, pos, rot) => {
            &&& outs.len() == 0
            &&& if old.contains_key(id) {
                new == old.insert(id, PlayerData { position: pos, rotation: rot, ..old[id] })
            } else {
                new == old
            }
        },
        GameEvent::BlockBreak(_, (x, y, z)) => {
            &&& new == old
            &&& outs == seq![GameOutput::BlockUpdate { x, y, z, block_id: 0 }]
        },
        GameEvent::BlockPlace(_, (x, y, z), block_id) => {
            &&& new == old
            &&& outs == seq![GameOutput::BlockUpdate { x, y, z, block_id }]
        },
        GameEvent::PlayerChat(id, message) => {
            &&& new == old
            &&& if old.contains_key(id) {
                &&& outs.len() == 1
                &&& outs[0] matches GameOutput::ChatMessage { sender, message: m }
                &&& sender@ == old[id].username@
                &&& m == message
            } else {
                outs.len() == 0
            }
        },
        _ => new == old && outs.len() == 0,
    }
}

/// The main game state.
pub struct GameState {
    pub players: HashMap<i64, PlayerData>,
    pub world_state: WorldState,
    pub tick: u64,
    pub stopped: bool,
}

impl GameState {
    pub fn new() -> (r: Self)
        ensures
            r.players@ == Map::<i64, PlayerData>::empty(),
            r.world_state.time.spec_ticks() == 6000,
            r.world_state.difficulty == Difficulty::Normal,
            r.world_state.rain_level == 0,
            r.world_state.lightning_level == 0,
            r.world_state.spawn_protection == 16,
            r.tick == 0,
            !r.stopped,
    {
        GameState { players: HashMap::new(), world_state: WorldState::default(), tick: 0, stopped: false }
    }

    /// Add a player under `entity_id`, replacing any player there.
    pub fn add_player(&mut self, entity_id: i64, username: String)
        ensures
            final(self).players@.dom() == old(self).players@.dom().insert(entity_id),
            new_player(final(self).players@[entity_id], entity_id, username),
            forall|k: i64| k != entity_id && old(self).players@.contains_key(k)
                ==> #[trigger] final(self).players@[k] == old(self).players@[k],
            final(self).world_state == old(self).world_state,
            final(self).tick == old(self).tick,
            final(self).stopped == old(self).stopped,
    {
        let player = PlayerData::new(entity_id, username);
        self.players.insert(entity_id, player);
    }

    /// Remove a player, returning it if it was there.
    pub fn remove_player(&mut self, entity_id: i64) -> (r: Option<PlayerData>)
        ensures
            final(self).players@ == old(self).players@.remove(entity_id),
            r == old(self).players@.get(entity_id),
            final(self).world_state == old(self).world_state,
            final(self).tick == old(self).tick,
            final(self).stopped == old(self).stopped,
    {
        self.players.remove(&entity_id)
    }

    /// The player under `entity_id`, if any.
    pub fn get_player(&self, entity_id: i64) -> (r: Option<&PlayerData>)
        ensures
            match r {
                Some(p) => self.players@.contains_key(entity_id) && *p == self.players@[entity_id],
                None => !self.players@.contains_key(entity_id),
            },
    {
        self.players.get(&entity_id)
    }

    /// The player under `entity_id`, to change in place, if any.
    pub fn get_player_mut(&mut self, entity_id: i64) -> (r: Option<&mut PlayerData>)
        ensures
            match r {
                Some(p) => {
                    &&& old(self).players@.contains_key(entity_id)
                    &&& *p == old(self).players@[entity_id]
                    &&& final(self).players@ == old(self).players@.insert(entity_id, *final(p))
                },
                None => {
                    &&& !old(self).players@.contains_key(entity_id)
                    &&& final(self).players@ == old(self).players@
                },
            },
            final(self).world_state == old(self).world_state,
            final(self).tick == old(self).tick,
            final(self).stopped == old(self).stopped,
    {
        match self.players.entry(entity_id) {
            Entry::Occupied(e) => Some(e.into_mut()),
            Entry::Vacant(_) => None,
        }
    }

    /// Apply one event as `event_handled` says, appending its outputs.
    fn process_event(&mut self, event: GameEvent, outputs: &mut Vec<GameOutput>)
        ensures
            event_handled(old(self).players@, final(self).players@, event, final(outputs)@.skip(old(outputs)@.len() as int)),
            final(outputs)@.take(old(outputs)@.len() as int) == old(outputs)@,
            final(self).world_state == old(self).world_state,
            final(self).tick == old(self).tick,
            final(self).stopped == old(self).stopped,
    {
        let ghost o0 = outputs@;
        let ghost e0 = event;
        match event {
            GameEvent::PlayerJoin(entity_id) => {
                match self.players.get(&entity_id) {
                    Some(player) => {
                        let username = player.username.clone();
                        outputs.push(GameOutput::PlayerSpawned { entity_id, username });
                    },
                    None => {},
                }
            },
            GameEvent::PlayerLeave(entity_id) => {
                if let Some(_player) = self.remove_player(entity_id) {
                    outputs.push(GameOutput::PlayerDespawned { entity_id });
                    assert(outputs@.skip(o0.len() as int) =~= seq![GameOutput::PlayerDespawned { entity_id }]);
                }
            },
            GameEvent::PlayerMove(entity_id, pos, rot) => {
                if let Some(player) = self.get_player_mut(entity_id) {
                    player.position = pos;
                    player.rotation = rot;
                }
            },
            GameEvent::BlockBreak(_entity_id, (x, y, z)) => {
                outputs.push(GameOutput::BlockUpdate { x, y, z, block_id: 0 });
                assert(outputs@.skip(o0.len() as int) =~= seq![GameOutput::BlockUpdate { x, y, z, block_id: 0 }]);
            },
            GameEvent::BlockPlace(_entity_id, (x, y, z), block_id) => {
                outputs.push(GameOutput::BlockUpdate { x, y, z, block_id });
                assert(outputs@.skip(o0.len() as int) =~= seq![GameOutput::BlockUpdate { x, y, z, block_id }]);
            },
            GameEvent::PlayerChat(entity_id, message) => {
                match self.players.get(&entity_id) {
                    Some(player) => {
                        let sender = player.username.clone();
                        outputs.push(GameOutput::ChatMessage { sender, message });
                    },
                    None => {},
                }
            },
            GameEvent::PlayerCommand(_entity_id, _command) => {},
            GameEvent::PlayerInteract(_entity_id, _pos, _action) => {},
        }
        assert(outputs@.take(o0.len() as int) =~= o0);
    }

    /// One game tick: the clock advances, the event (if any) is applied as
    /// `event_handled` says, and every 20th tick the time of day advances
    /// one tick and a time update follows the event's outputs.
    pub fn tick(&mut self, event: Option<GameEvent>) -> (r: Vec<GameOutput>)
        requires
            old(self).tick < u64::MAX,
        ensures
            final(self).tick == old(self).tick + 1,
            final(self).stopped == old(self).stopped,
            ({
                let t = old(self).world_state.time.spec_ticks();
                let every = final(self).tick % 20 == 0;
                let n = if every { r@.len() - 1 } else { r@.len() as int };
                &&& every ==> r@.len() >= 1
                &&& match event {
                    Some(e) => event_handled(old(self).players@, final(self).players@, e, r@.take(n)),
                    None => final(self).players@ == old(self).players@ && n == 0,
                }
                &&& if every {
                    &&& final(self).world_state == (WorldState { time: final(self).world_state.time, ..old(self).world_state })
                    &&& final(self).world_state.time.spec_ticks() == (t + 1) % 24000
                    &&& r@.last() == GameOutput::TimeUpdate { time: ((t + 1) % 24000) as u32 }
                } else {
                    final(self).world_state == old(self).world_state
                }
            }),
    {
        let mut outputs: Vec<GameOutput> = Vec::new();
        self.tick = self.tick + 1;
        let ghost p0 = old(self).players@;
        let ghost ev = event;
        if let Some(evt) = event {
            self.process_event(evt, &mut outputs);
            assert(outputs@.skip(0) =~= outputs@);
        }
        let ghost o1 = outputs@;
        if self.tick % 20 == 0 {
            let now = self.world_state.time.ticks();
            self.world_state.time = TimeOfDay::new(now + 1);
            let time = self.world_state.time.ticks();
            outputs.push(GameOutput::TimeUpdate { time });
            assert(outputs@.take(o1.len() as int) =~= o1);
            assert(outputs@.len() - 1 == o1.len());
        } else {
            assert(outputs@.take(o1.len() as int) =~= o1);
        }
        proof {
            match ev {
                Some(e) => {
                    assert(event_handled(p0, self.players@, e, o1));
                },
                None => {
                    assert(o1.len() == 0);
                },
            }
        }
        outputs
    }

    /// Stop the game.
    pub fn stop(&mut self)
        ensures
            final(self).stopped,
            final(self).players@ == old(self).players@,
            final(self).world_state == old(self).world_state,
            final(self).tick == old(self).tick,
    {
        self.stopped = true;
    }
}

impl Default for GameState {
    fn default() -> (r: Self)
        ensures
            r.players@ == Map::<i64, PlayerData>::empty(),
            r.tick == 0,
            !r.stopped,
    {
        GameState::new()
    }
}

} // verus!
