//! Built-in command implementations: each builds the reply text.

use vstd::prelude::*;
use crate::commands::{CommandContext, CommandOutput, CommandResult, CommandError, CommandSender};
use crate::text::{digits, decimal, join, owned, push_str, push_digits, push_decimal, chars_of, chars_eq};

verus! {

/// What `str::to_lowercase` returns for a string of the characters `s`.
pub uninterp spec fn lowercase(s: Seq<char>) -> Seq<char>;

/// `str::to_lowercase`: the Unicode lower-case of the string. What that is
/// takes the Unicode tables to say, so the result is only named.
#[verifier::external_body]
pub(crate) fn to_lower(s: &str) -> (r: String)
    ensures
        r@ == lowercase(s@),
{
    s.to_lowercase()
}

/// Whether two strings hold the same characters.
pub fn str_eq(a: &str, b: &str) -> (r: bool)
    ensures
        r == (a@ == b@),
{
    let ca = chars_of(a);
    let cb = chars_of(b);
    let n = ca.len();
    let r = chars_eq(ca.as_slice(), 0, n, cb.as_slice());
    assert(ca@.subrange(0, n as int) =~= ca@);
    r
}

/// A target name, or "yourself" when it is empty.
pub open spec fn who(target: Seq<char>) -> Seq<char> {
    if target.len() == 0 { "yourself"@ } else { target }
}

fn push_who(s: &mut String, target: &str)
    ensures
        final(s)@ == old(s)@ + who(target@),
{
    if target.is_empty() {
        push_str(s, "yourself");
    } else {
        push_str(s, target);
    }
}

/// A successful reply.
pub open spec fn replied(r: CommandResult, text: Seq<char>) -> bool {
    r matches Ok(out) && out.success && out.message@ == text && out.sender_id is None
}

/// An error reply (the command ran but refused its arguments).
pub open spec fn refused(r: CommandResult, text: Seq<char>) -> bool {
    r matches Ok(out) && !out.success && out.message@ == text && out.sender_id is None
}

/// The reply text of a command.
pub open spec fn kick_text(target: Seq<char>, reason: Seq<char>) -> Seq<char> {
    "Kicked player '"@ + target + "' for: "@ + (if reason.len() == 0 {
        "No reason given"@
    } else {
        reason
    })
}

/// The reply text of a command.
pub open spec fn gamemode_set_text(mode: Seq<char>, target: Seq<char>) -> Seq<char> {
    "Set gamemode of "@ + who(target) + " to "@ + mode
}

/// The reply text of a command.
pub open spec fn gamemode_invalid_text(mode: Seq<char>) -> Seq<char> {
    "Invalid gamemode '"@ + mode + "'. Valid: survival, creative, adventure, spectator"@
}

/// The reply text of a command.
pub open spec fn give_text(target: Seq<char>, item: Seq<char>, amount: u32) -> Seq<char> {
    "Gave "@ + digits(amount as nat) + " "@ + item + " "@ + (if amount == 1 {
        ""@
    } else {
        "items"@
    }) + " to "@ + who(target)
}

/// The reply text of a command.
pub open spec fn time_text(time: u32) -> Seq<char> {
    "Set time to "@ + digits(time as nat)
}

/// The reply text of a command.
pub open spec fn difficulty_set_text(level: Seq<char>) -> Seq<char> {
    "Set difficulty to "@ + level
}

/// The reply text of a command.
pub open spec fn difficulty_invalid_text(level: Seq<char>) -> Seq<char> {
    "Invalid difficulty '"@ + level + "'. Valid: peaceful, easy, normal, hard"@
}

/// The reply text of a command.
pub open spec fn weather_set_text(w: Seq<char>) -> Seq<char> {
    "Set weather to "@ + w
}

/// The reply text of a command.
pub open spec fn weather_invalid_text(w: Seq<char>) -> Seq<char> {
    "Invalid weather '"@ + w + "'. Valid: clear, rain, thunder"@
}

/// The reply text of a command.
pub open spec fn kill_text(target: Seq<char>) -> Seq<char> {
    "Killed "@ + who(target)
}

/// The reply text of a command.
pub open spec fn feed_text(target: Seq<char>, amount: u32) -> Seq<char> {
    "Fed "@ + who(target) + " with "@ + digits(amount as nat) + " points"@
}

/// The reply text of a command.
pub open spec fn spawn_text(x: i32, y: i32, z: i32) -> Seq<char> {
    "Set spawn point to ("@ + decimal(x as int) + ", "@ + decimal(y as int) + ", "@ + decimal(
        z as int,
    ) + ")"@
}

/// The reply text of a command.
pub open spec fn clear_text(target: Seq<char>) -> Seq<char> {
    "Cleared inventory of "@ + who(target)
}

/// The reply text of a command.
pub open spec fn effect_text(target: Seq<char>, effect_name: Seq<char>, duration: u32) -> Seq<char> {
    "Gave "@ + who(target) + " "@ + effect_name + " effect for "@ + digits(duration as nat)
        + " seconds"@
}

/// Stop command - shuts down the server.
pub fn stop(_ctx: &CommandContext) -> (r: CommandResult)
    ensures
        replied(r, "Stopping server..."@),
{
    Ok(CommandOutput::success(owned("Stopping server...")))
}

/// The names of each string.
pub open spec fn names(v: Seq<String>) -> Seq<Seq<char>> {
    Seq::new(v.len(), |i: int| v[i]@)
}

/// The reply of `list` for the given players.
pub open spec fn player_list_text(players: Seq<String>) -> Seq<char> {
    if players.len() == 0 {
        "No players online"@
    } else {
        digits(players.len()) + " player(s) online: "@ + join(names(players), ", "@)
    }
}

/// List players command: the count and names, addressed to the sending
/// player (-1 for other senders).
pub fn list_players(ctx: &CommandContext, players: &[String]) -> (r: CommandResult)
    ensures
        r matches Ok(out) && out.success && out.message@ == player_list_text(players@)
            && out.sender_id == Some(
            match ctx.sender {
                CommandSender::Player(id) => id,
                _ => -1i64,
            },
        ),
{
    let mut text: String;
    if players.len() == 0 {
        text = owned("No players online");
    } else {
        text = String::new();
        push_digits(&mut text, players.len() as u64);
        push_str(&mut text, " player(s) online: ");
        let ghost head = text@;
        let mut i: usize = 0;
        while i < players.len()
            invariant
                i <= players@.len(),
                players@.len() > 0,
                text@ == head + join(names(players@.subrange(0, i as int)), ", "@),
            decreases players@.len() - i,
        {
            let ghost prev = players@.subrange(0, i as int);
            assert(names(players@.subrange(0, i + 1)).drop_last() =~= names(prev));
            if i > 0 {
                push_str(&mut text, ", ");
            } else {
                assert(names(prev) =~= Seq::<Seq<char>>::empty());
            }
            push_str(&mut text, players[i].as_str());
            i = i + 1;
            assert(text@ =~= head + join(names(players@.subrange(0, i as int)), ", "@));
        }
        assert(players@.subrange(0, players@.len() as int) =~= players@);
    }
    let sender = match ctx.sender.player_id() {
        Some(id) => id,
        None => -1,
    };
    Ok(CommandOutput::success(text).with_sender(sender))
}

/// Say command - broadcast message to all players.
pub fn say(_message: &str) -> (r: CommandResult)
    ensures
        replied(r, "Message broadcast"@),
{
    Ok(CommandOutput::success(owned("Message broadcast")))
}

/// Kick player command.
pub fn kick_player(target: &str, reason: &str) -> (r: CommandResult)
    ensures
        replied(r, kick_text(target@, reason@)),
{
    let mut m = owned("Kicked player '");
    push_str(&mut m, target);
    push_str(&mut m, "' for: ");
    if reason.is_empty() {
        push_str(&mut m, "No reason given");
    } else {
        push_str(&mut m, reason);
    }
    Ok(CommandOutput::success(m))
}

/// The game mode that a lower-cased mode argument names: one of the four
/// names, or its number from 0 (survival) to 3 (spectator).
pub open spec fn gamemode_of(s: Seq<char>) -> Option<Seq<char>> {
    if s == "survival"@ || s == "0"@ {
        Some("survival"@)
    } else if s == "creative"@ || s == "1"@ {
        Some("creative"@)
    } else if s == "adventure"@ || s == "2"@ {
        Some("adventure"@)
    } else if s == "spectator"@ || s == "3"@ {
        Some("spectator"@)
    } else {
        None
    }
}

/// Whether `s` names a game mode.
pub open spec fn is_gamemode_name(s: Seq<char>) -> bool {
    gamemode_of(s) is Some
}

/// How the reply names the mode: a number by the mode's name, a name as
/// it was typed.
pub open spec fn gamemode_shown(mode: Seq<char>, lowered: Seq<char>) -> Seq<char> {
    if lowered == "0"@ || lowered == "1"@ || lowered == "2"@ || lowered == "3"@ {
        gamemode_of(lowered)->0
    } else {
        mode
    }
}

/// Gamemode command, given the mode's lower-case form.
pub fn gamemode_with(mode: &str, lowered: &str, target: &str) -> (r: CommandResult)
    ensures
        is_gamemode_name(lowered@) ==> replied(
            r,
            gamemode_set_text(gamemode_shown(mode@, lowered@), target@),
        ),
        !is_gamemode_name(lowered@) ==> refused(r, gamemode_invalid_text(mode@)),
{
    proof {
        reveal_strlit("0");
        reveal_strlit("1");
        reveal_strlit("2");
        reveal_strlit("3");
        reveal_strlit("survival");
        reveal_strlit("creative");
        reveal_strlit("adventure");
        reveal_strlit("spectator");
    }
    let shown: &str = if str_eq(lowered, "0") {
        "survival"
    } else if str_eq(lowered, "1") {
        "creative"
    } else if str_eq(lowered, "2") {
        "adventure"
    } else if str_eq(lowered, "3") {
        "spectator"
    } else if str_eq(lowered, "survival") || str_eq(lowered, "creative") || str_eq(
        lowered,
        "adventure",
    ) || str_eq(lowered, "spectator") {
        mode
    } else {
        let mut m = owned("Invalid gamemode '");
        push_str(&mut m, mode);
        push_str(&mut m, "'. Valid: survival, creative, adventure, spectator");
        return Ok(CommandOutput::error(m));
    };
    let mut m = owned("Set gamemode of ");
    push_who(&mut m, target);
    push_str(&mut m, " to ");
    push_str(&mut m, shown);
    Ok(CommandOutput::success(m))
}

/// Gamemode command: the mode is a name, matched case-insensitively, or
/// a number from 0 to 3.
pub fn gamemode(mode: &str, target: &str) -> (r: CommandResult)
    ensures
        is_gamemode_name(lowercase(mode@)) ==> replied(
            r,
            gamemode_set_text(gamemode_shown(mode@, lowercase(mode@)), target@),
        ),
        !is_gamemode_name(lowercase(mode@)) ==> refused(r, gamemode_invalid_text(mode@)),
{
    let lowered = to_lower(mode);
    gamemode_with(mode, lowered.as_str(), target)
}

/// Give item command.
pub fn give(target: &str, item: &str, amount: u32) -> (r: CommandResult)
    ensures
        replied(r, give_text(target@, item@, amount)),
{
    let mut m = owned("Gave ");
    push_digits(&mut m, amount as u64);
    push_str(&mut m, " ");
    push_str(&mut m, item);
    push_str(&mut m, " ");
    if amount == 1 {
        push_str(&mut m, "");
    } else {
        push_str(&mut m, "items");
    }
    push_str(&mut m, " to ");
    push_who(&mut m, target);
    Ok(CommandOutput::success(m))
}

/// Time set command.
pub fn time_set(time: u32) -> (r: CommandResult)
    ensures
        replied(r, time_text(time)),
{
    let mut m = owned("Set time to ");
    push_digits(&mut m, time as u64);
    Ok(CommandOutput::success(m))
}

/// Whether `s` is one of the four difficulty names.
pub open spec fn is_difficulty_name(s: Seq<char>) -> bool {
    s == "peaceful"@ || s == "easy"@ || s == "normal"@ || s == "hard"@
}

/// Difficulty command, given the level's lower-case form.
pub fn difficulty_with(level: &str, lowered: &str) -> (r: CommandResult)
    ensures
        is_difficulty_name(lowered@) ==> replied(r, difficulty_set_text(level@)),
        !is_difficulty_name(lowered@) ==> refused(r, difficulty_invalid_text(level@)),
{
    if !(str_eq(lowered, "peaceful") || str_eq(lowered, "easy") || str_eq(lowered, "normal")
        || str_eq(lowered, "hard")) {
        let mut m = owned("Invalid difficulty '");
        push_str(&mut m, level);
        push_str(&mut m, "'. Valid: peaceful, easy, normal, hard");
        return Ok(CommandOutput::error(m));
    }
    let mut m = owned("Set difficulty to ");
    push_str(&mut m, level);
    Ok(CommandOutput::success(m))
}

/// Difficulty command: the level is matched case-insensitively.
pub fn difficulty(level: &str) -> (r: CommandResult)
    ensures
        is_difficulty_name(lowercase(level@)) ==> replied(r, difficulty_set_text(level@)),
        !is_difficulty_name(lowercase(level@)) ==> refused(r, difficulty_invalid_text(level@)),
{
    let lowered = to_lower(level);
    difficulty_with(level, lowered.as_str())
}

/// Whether `s` is one of the three weather names.
pub open spec fn is_weather_name(s: Seq<char>) -> bool {
    s == "clear"@ || s == "rain"@ || s == "thunder"@
}

/// Weather command, given the weather's lower-case form.
pub fn weather_with(weather_type: &str, lowered: &str) -> (r: CommandResult)
    ensures
        is_weather_name(lowered@) ==> replied(r, weather_set_text(weather_type@)),
        !is_weather_name(lowered@) ==> refused(r, weather_invalid_text(weather_type@)),
{
    if !(str_eq(lowered, "clear") || str_eq(lowered, "rain") || str_eq(lowered, "thunder")) {
        let mut m = owned("Invalid weather '");
        push_str(&mut m, weather_type);
        push_str(&mut m, "'. Valid: clear, rain, thunder");
        return Ok(CommandOutput::error(m));
    }
    let mut m = owned("Set weather to ");
    push_str(&mut m, weather_type);
    Ok(CommandOutput::success(m))
}

/// Weather command: the weather is matched case-insensitively.
pub fn weather(weather_type: &str) -> (r: CommandResult)
    ensures
        is_weather_name(lowercase(weather_type@)) ==> replied(r, weather_set_text(weather_type@)),
        !is_weather_name(lowercase(weather_type@)) ==> refused(r, weather_invalid_text(weather_type@)),
{
    let lowered = to_lower(weather_type);
    weather_with(weather_type, lowered.as_str())
}

/// Kill command.
pub fn kill(target: &str) -> (r: CommandResult)
    ensures
        replied(r, kill_text(target@)),
{
    let mut m = owned("Killed ");
    push_who(&mut m, target);
    Ok(CommandOutput::success(m))
}

/// Feed command (hunger).
pub fn feed(target: &str, amount: u32) -> (r: CommandResult)
    ensures
        replied(r, feed_text(target@, amount)),
{
    let mut m = owned("Fed ");
    push_who(&mut m, target);
    push_str(&mut m, " with ");
    push_digits(&mut m, amount as u64);
    push_str(&mut m, " points");
    Ok(CommandOutput::success(m))
}

/// Set spawn point command.
pub fn set_spawn(x: i32, y: i32, z: i32) -> (r: CommandResult)
    ensures
        replied(r, spawn_text(x, y, z)),
{
    let mut m = owned("Set spawn point to (");
    push_decimal(&mut m, x as i64);
    push_str(&mut m, ", ");
    push_decimal(&mut m, y as i64);
    push_str(&mut m, ", ");
    push_decimal(&mut m, z as i64);
    push_str(&mut m, ")");
    Ok(CommandOutput::success(m))
}

/// Clear inventory command.
pub fn clear_inventory(target: &str) -> (r: CommandResult)
    ensures
        replied(r, clear_text(target@)),
{
    let mut m = owned("Cleared inventory of ");
    push_who(&mut m, target);
    Ok(CommandOutput::success(m))
}

/// Effect command.
pub fn effect(target: &str, effect_name: &str, duration: u32) -> (r: CommandResult)
    ensures
        replied(r, effect_text(target@, effect_name@, duration)),
{
    let mut m = owned("Gave ");
    push_who(&mut m, target);
    push_str(&mut m, " ");
    push_str(&mut m, effect_name);
    push_str(&mut m, " effect for ");
    push_digits(&mut m, duration as u64);
    push_str(&mut m, " seconds");
    Ok(CommandOutput::success(m))
}

} // verus!
