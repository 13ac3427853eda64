//! What a line typed at the server console asks for, and when a command's
//! reply ends the console.

use vstd::prelude::*;
use crate::text::{chars_of, chars_eq, trim, trim_bounds, eq_ignore_case, eq_ignore_ascii_case};

verus! {

/// What the console does with a line.
#[derive(Debug, Clone, Copy, PartialEq, Eq, Structural)]
pub enum ConsoleAction {
    /// A blank line: nothing.
    Skip,
    /// `stop` or `exit`: shut the server down.
    Stop,
    /// `list` or `players`: print the players online.
    ListPlayers,
    /// `tps`: print the ticks per second.
    ShowTps,
    /// Anything else: run it as a command from the console.
    Execute,
}

/// The action for a trimmed console line; the words are matched without
/// regard to ASCII case.
pub open spec fn console_action_spec(line: Seq<char>) -> ConsoleAction {
    if line.len() == 0 {
        ConsoleAction::Skip
    } else if eq_ignore_case(line, "stop"@) || eq_ignore_case(line, "exit"@) {
        ConsoleAction::Stop
    } else if eq_ignore_case(line, "list"@) || eq_ignore_case(line, "players"@) {
        ConsoleAction::ListPlayers
    } else if eq_ignore_case(line, "tps"@) {
        ConsoleAction::ShowTps
    } else {
        ConsoleAction::Execute
    }
}

/// What a console line asks for, once leading and trailing white space is
/// removed.
pub fn console_action(line: &str) -> (r: ConsoleAction)
    ensures
        r == console_action_spec(trim(line@)),
{
    let cs = chars_of(line);
    let (a, b) = trim_bounds(cs.as_slice());
    if a == b {
        return ConsoleAction::Skip;
    }
    let s = cs.as_slice();
    let stop = chars_of("stop");
    let exit = chars_of("exit");
    if eq_ignore_ascii_case(s, a, b, stop.as_slice()) || eq_ignore_ascii_case(s, a, b, exit.as_slice()) {
        return ConsoleAction::Stop;
    }
    let list = chars_of("list");
    let players = chars_of("players");
    if eq_ignore_ascii_case(s, a, b, list.as_slice()) || eq_ignore_ascii_case(s, a, b, players.as_slice()) {
        return ConsoleAction::ListPlayers;
    }
    let tps = chars_of("tps");
    if eq_ignore_ascii_case(s, a, b, tps.as_slice()) {
        return ConsoleAction::ShowTps;
    }
    ConsoleAction::Execute
}

/// Some stretch of `s` is `t`.
pub open spec fn has_text(s: Seq<char>, t: Seq<char>) -> bool {
    exists|i: int| 0 <= i && i + t.len() <= s.len() && #[trigger] s.subrange(i, i + t.len()) == t
}

/// Whether a command's reply ends the console: it says "Stopping".
pub fn reply_stops_console(message: &str) -> (r: bool)
    ensures
        r == has_text(message@, "Stopping"@),
{
    let cs = chars_of(message);
    let pat = chars_of("Stopping");
    let n = cs.len();
    let m = pat.len();
    if m > n {
        proof {
            assert(!has_text(message@, "Stopping"@));
        }
        return false;
    }
    proof {
        reveal_strlit("Stopping");
    }
    let mut i: usize = 0;
    while i <= n - m
        invariant
            cs@ == message@,
            pat@ == "Stopping"@,
            n == cs@.len(),
            m == pat@.len(),
            m == 8,
            m <= n,
            i <= n - m + 1,
            forall|j: int| 0 <= j < i ==> #[trigger] cs@.subrange(j, j + m) != pat@,
        decreases n - m + 1 - i,
    {
        if chars_eq(cs.as_slice(), i, i + m, pat.as_slice()) {
            assert(cs@.subrange(i as int, i + m) == pat@);
            return true;
        }
        i = i + 1;
    }
    proof {
        if has_text(message@, "Stopping"@) {
            let j = choose|j: int| 0 <= j && j + m <= n && #[trigger] message@.subrange(j, j + m) == "Stopping"@;
            assert(cs@.subrange(j, j + m) == pat@);
        }
    }
    false
}

} // verus!
