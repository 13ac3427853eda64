//! RustMine: a Minecraft Bedrock server library.
//!
//! The verified core holds the wire formats (VarInt, RakNet framing,
//! Bedrock batches, chunk encoding), the RakNet connection and server
//! state machines, the world model, the game state and tick, the command
//! parser and registry, the per-player login state machine, and what is
//! streamed to players.

pub mod bytes;
pub mod palette;
pub mod text;
pub mod nbt;
pub mod varint;
pub mod raknet_packet;
pub mod packet_id;
pub mod codec;
pub mod batch;
pub mod interaction;
pub mod chunk;
pub mod decode;
pub mod login;
pub mod world;
pub mod game;
pub mod ecs;
pub mod commands;
pub mod builtins;
pub mod session;
pub mod config;
pub mod raknet_conn;
pub mod raknet_server;
pub mod stream;
pub mod console;
