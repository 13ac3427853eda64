//! Server configuration: the sections of `server.toml` and their
//! defaults.

use vstd::prelude::*;
use crate::text::owned;

verus! {

/// Top-level server configuration.
#[derive(Debug, Clone)]
pub struct ServerConfig {
    /// Server identity settings.
    pub server: ServerSection,
    /// Game world settings.
    pub game: GameSection,
    /// Authentication settings.
    pub auth: AuthSection,
    /// Logging settings.
    pub logging: LoggingSection,
}

/// Server identity and network settings.
#[derive(Debug, Clone)]
pub struct ServerSection {
    pub name: String,
    pub motd: String,
    pub port: u16,
    pub max_players: u32,
    pub bind_address: String,
}

/// Game world settings.
#[derive(Debug, Clone)]
pub struct GameSection {
    pub view_distance: u32,
    pub gamemode: String,
    pub difficulty: String,
    pub world_name: String,
    pub seed: u64,
    pub flat_world: bool,
}

/// Authentication settings.
#[derive(Debug, Clone)]
pub struct AuthSection {
    /// Whether Xbox Live authentication is required (offline mode when
    /// false).
    pub online_mode: bool,
}

/// Logging settings.
#[derive(Debug, Clone)]
pub struct LoggingSection {
    /// Tracing filter directive.
    pub level: String,
}

pub fn default_name() -> (r: String)
    ensures
        r@ == "RustMine Server"@,
{
    owned("RustMine Server")
}

pub fn default_motd() -> (r: String)
    ensures
        r@ == "A RustMine Bedrock Server"@,
{
    owned("A RustMine Bedrock Server")
}

pub fn default_port() -> (r: u16)
    ensures
        r == 19132,
{
    19132
}

pub fn default_max_players() -> (r: u32)
    ensures
        r == 20,
{
    20
}

pub fn default_bind_address() -> (r: String)
    ensures
        r@ == "0.0.0.0"@,
{
    owned("0.0.0.0")
}

pub fn default_view_distance() -> (r: u32)
    ensures
        r == 10,
{
    10
}

pub fn default_gamemode() -> (r: String)
    ensures
        r@ == "survival"@,
{
    owned("survival")
}

pub fn default_difficulty() -> (r: String)
    ensures
        r@ == "normal"@,
{
    owned("normal")
}

pub fn default_world_name() -> (r: String)
    ensures
        r@ == "world"@,
{
    owned("world")
}

pub fn default_online_mode() -> (r: bool)
    ensures
        !r,
{
    false
}

pub fn default_log_level() -> (r: String)
    ensures
        r@ == "info"@,
{
    owned("info")
}

/// The configuration used when no file says otherwise.
pub open spec fn is_default_config(c: ServerConfig) -> bool {
    &&& c.server.name@ == "RustMine Server"@
    &&& c.server.motd@ == "A RustMine Bedrock Server"@
    &&& c.server.port == 19132
    &&& c.server.max_players == 20
    &&& c.server.bind_address@ == "0.0.0.0"@
    &&& c.game.view_distance == 10
    &&& c.game.gamemode@ == "survival"@
    &&& c.game.difficulty@ == "normal"@
    &&& c.game.world_name@ == "world"@
    &&& c.game.seed == 0
    &&& !c.game.flat_world
    &&& !c.auth.online_mode
    &&& c.logging.level@ == "info"@
}

impl Default for LoggingSection {
    fn default() -> (r: Self)
        ensures
            r.level@ == "info"@,
    {
        LoggingSection { level: default_log_level() }
    }
}

impl Default for ServerConfig {
    fn default() -> (r: Self)
        ensures
            is_default_config(r),
    {
        ServerConfig {
            server: ServerSection {
                name: default_name(),
                motd: default_motd(),
                port: default_port(),
                max_players: default_max_players(),
                bind_address: default_bind_address(),
            },
            game: GameSection {
                view_distance: default_view_distance(),
                gamemode: default_gamemode(),
                difficulty: default_difficulty(),
                world_name: default_world_name(),
                seed: 0,
                flat_world: false,
            },
            auth: AuthSection { online_mode: default_online_mode() },
            logging: LoggingSection { level: default_log_level() },
        }
    }
}

} // verus!
