use rustmine::game::{
    Difficulty, GameEvent, GameOutput, GameState, Gamemode, PlayerData, Rotation, TimeOfDay, Vec3, F32_20, F32_70,
};

#[test]
fn test_player_data() {
    let player = PlayerData::new(1, "TestPlayer".to_string());
    assert_eq!(player.entity_id, 1);
    assert_eq!(player.username, "TestPlayer");
    assert_eq!(player.gamemode, Gamemode::Survival);
}

#[test]
fn test_gamemode() {
    assert_eq!(Gamemode::from_u32(0), Gamemode::Survival);
    assert_eq!(Gamemode::from_u32(1), Gamemode::Creative);
    assert_eq!(Gamemode::as_u32(&Gamemode::Adventure), 2);
}

#[test]
fn test_time_of_day() {
    let time = TimeOfDay::new(6000);
    assert!(time.is_day());

    let night = TimeOfDay::new(14000);
    assert!(night.is_night());
}

#[test]
fn test_game_state() {
    let mut state = GameState::new();
    state.add_player(1, "Steve".to_string());

    assert!(state.get_player(1).is_some());
    assert_eq!(state.players.len(), 1);

    let removed = state.remove_player(1);
    assert!(removed.is_some());
    assert!(state.get_player(1).is_none());
}

#[test]
fn test_tick() {
    let mut state = GameState::new();
    assert_eq!(state.tick, 0);

    state.tick(None);
    assert_eq!(state.tick, 1);

    state.tick(None);
    state.tick(None);
}

#[test]
fn player_defaults() {
    let p = PlayerData::new(9, "Alex".to_string());
    assert_eq!(f32::from_bits(p.position.y), 70.0);
    assert_eq!(p.position.y, F32_70);
    assert_eq!(f32::from_bits(p.health), 20.0);
    assert_eq!(p.health, F32_20);
    assert_eq!(p.hunger, 20);
    assert_eq!(p.view_distance, 10);
    assert!(!p.on_ground);
}

#[test]
fn time_wraps_and_hours() {
    assert_eq!(TimeOfDay::new(24000).ticks(), 0);
    assert_eq!(TimeOfDay::new(30001).ticks(), 6001);
    assert_eq!(TimeOfDay::from_hours(13).ticks(), 13000);
    assert!(TimeOfDay::from_hours(13).is_night());
    assert!(TimeOfDay::new(11999).is_day());
    assert!(TimeOfDay::new(12000).is_night());
    assert_eq!(TimeOfDay::default().ticks(), 6000);
}

#[test]
fn difficulty_numbers() {
    assert_eq!(Difficulty::from_u32(0), Difficulty::Peaceful);
    assert_eq!(Difficulty::from_u32(3), Difficulty::Hard);
    assert_eq!(Difficulty::from_u32(9), Difficulty::Normal);
    assert_eq!(Difficulty::Easy.as_u32(), 1);
    assert_eq!(Gamemode::from_u32(42), Gamemode::Survival);
}

#[test]
fn every_twentieth_tick_advances_time() {
    let mut state = GameState::new();
    for _ in 0..19 {
        assert!(state.tick(None).is_empty());
    }
    let out = state.tick(None);
    assert_eq!(out.len(), 1);
    match &out[0] {
        GameOutput::TimeUpdate { time } => assert_eq!(*time, 6001),
        _ => panic!("expected a time update"),
    }
    assert_eq!(state.world_state.time.ticks(), 6001);
}

#[test]
fn join_chat_move_leave() {
    let mut state = GameState::new();
    state.add_player(5, "Steve".to_string());
    let out = state.tick(Some(GameEvent::PlayerJoin(5)));
    match &out[0] {
        GameOutput::PlayerSpawned { entity_id, username } => {
            assert_eq!(*entity_id, 5);
            assert_eq!(username, "Steve");
        }
        _ => panic!("expected a spawn"),
    }
    let out = state.tick(Some(GameEvent::PlayerChat(5, "hi".to_string())));
    match &out[0] {
        GameOutput::ChatMessage { sender, message } => {
            assert_eq!(sender, "Steve");
            assert_eq!(message, "hi");
        }
        _ => panic!("expected a chat message"),
    }
    let pos = Vec3::new(1.5f32.to_bits(), 64.0f32.to_bits(), (-3.0f32).to_bits());
    let rot = Rotation { yaw: 90.0f32.to_bits(), pitch: 0 };
    assert!(state.tick(Some(GameEvent::PlayerMove(5, pos, rot))).is_empty());
    assert_eq!(state.get_player(5).unwrap().position, pos);
    assert_eq!(state.get_player(5).unwrap().rotation, rot);
    let out = state.tick(Some(GameEvent::PlayerLeave(5)));
    match &out[0] {
        GameOutput::PlayerDespawned { entity_id } => assert_eq!(*entity_id, 5),
        _ => panic!("expected a despawn"),
    }
    assert!(state.get_player(5).is_none());
    assert!(state.tick(Some(GameEvent::PlayerLeave(5))).is_empty());
    assert!(state.tick(Some(GameEvent::PlayerJoin(6))).is_empty());
}

#[test]
fn block_events_become_updates() {
    let mut state = GameState::new();
    let out = state.tick(Some(GameEvent::BlockBreak(1, (3, 64, -7))));
    match &out[0] {
        GameOutput::BlockUpdate { x, y, z, block_id } => assert_eq!((*x, *y, *z, *block_id), (3, 64, -7, 0)),
        _ => panic!("expected a block update"),
    }
    let out = state.tick(Some(GameEvent::BlockPlace(1, (0, 65, 0), 2)));
    match &out[0] {
        GameOutput::BlockUpdate { block_id, .. } => assert_eq!(*block_id, 2),
        _ => panic!("expected a block update"),
    }
    assert!(state.tick(Some(GameEvent::PlayerCommand(1, "/stop".to_string()))).is_empty());
}

#[test]
fn get_player_mut_changes_in_place() {
    let mut state = GameState::new();
    state.add_player(2, "Alex".to_string());
    state.get_player_mut(2).unwrap().hunger = 5;
    assert_eq!(state.get_player(2).unwrap().hunger, 5);
    assert!(state.get_player_mut(3).is_none());
    state.stop();
    assert!(state.stopped);
}
