//! In-game command parser and built-in commands.
//!
//! A command line is split into a label and arguments (quotes group
//! words); the registry finds the command by name or alias and runs it.

use vstd::prelude::*;
use std::sync::Arc;
use crate::text::{
    chars_of, string_of, trim, trim_start, trim_end, is_ws, trim_bounds, eq_ignore_case, eq_ignore_ascii_case, chars_eq,
    push_char, push_str, owned, join, parse_u32, parse_i32, parse_u32_spec, parse_i32_spec,
};
use crate::builtins::{
    self, lowercase, to_lower, str_eq, names, replied, refused, kick_text, gamemode_set_text,
    gamemode_invalid_text, is_gamemode_name, gamemode_shown, give_text, time_text, difficulty_set_text,
    difficulty_invalid_text, is_difficulty_name, weather_set_text, weather_invalid_text,
    is_weather_name, kill_text, feed_text, spawn_text, clear_text, effect_text,
};

verus! {

/// Command-related errors.
#[derive(Debug, Clone)]
pub enum CommandError {
    UnknownCommand(String),
    InvalidArguments(String),
    PermissionDenied(String),
    PlayerNotFound(String),
}

/// Command sender type.
#[derive(Debug, Clone, Copy, PartialEq, Eq, Structural)]
pub enum CommandSender {
    Player(i64),
    Console,
    CommandBlock,
}

impl CommandSender {
    pub fn is_player(&self) -> (r: bool)
        ensures
            r == (*self is Player),
    {
        match self {
            CommandSender::Player(_) => true,
            _ => false,
        }
    }

    pub fn is_console(&self) -> (r: bool)
        ensures
            r == (*self is Console),
    {
        match self {
            CommandSender::Console => true,
            _ => false,
        }
    }

    pub fn player_id(&self) -> (r: Option<i64>)
        ensures
            r == (match *self {
                CommandSender::Player(id) => Some(id),
                _ => None::<i64>,
            }),
    {
        match self {
            CommandSender::Player(id) => Some(*id),
            _ => None,
        }
    }
}

/// Command execution context.
#[derive(Debug, Clone)]
pub struct CommandContext {
    pub sender: CommandSender,
    pub args: Vec<String>,
    pub label: String,
}

impl CommandContext {
    pub fn new(sender: CommandSender, label: String, args: Vec<String>) -> (r: Self)
        ensures
            r.sender == sender,
            r.label == label,
            r.args == args,
    {
        CommandContext { sender, args, label }
    }

    /// The sender's name: `fallback` for a player, else the sender kind.
    pub fn player_name(&self, fallback: &str) -> (r: String)
        ensures
            r@ == (match self.sender {
                CommandSender::Player(_) => fallback@,
                CommandSender::Console => "Console"@,
                CommandSender::CommandBlock => "CommandBlock"@,
            }),
    {
        match self.sender {
            CommandSender::Player(_) => owned(fallback),
            CommandSender::Console => owned("Console"),
            CommandSender::CommandBlock => owned("CommandBlock"),
        }
    }
}

/// Command output message type.
#[derive(Debug, Clone)]
pub struct CommandOutput {
    pub success: bool,
    pub message: String,
    pub sender_id: Option<i64>,
}

impl CommandOutput {
    pub fn success(message: String) -> (r: Self)
        ensures
            r.success,
            r.message == message,
            r.sender_id is None,
    {
        CommandOutput { success: true, message, sender_id: None }
    }

    pub fn error(message: String) -> (r: Self)
        ensures
            !r.success,
            r.message == message,
            r.sender_id is None,
    {
        CommandOutput { success: false, message, sender_id: None }
    }

    pub fn with_sender(self, sender_id: i64) -> (r: Self)
        ensures
            r.success == self.success,
            r.message == self.message,
            r.sender_id == Some(sender_id),
    {
        let mut out = self;
        out.sender_id = Some(sender_id);
        out
    }
}

/// Permission levels for commands.
#[derive(Debug, Clone, Copy, PartialEq, Eq, Structural)]
pub enum CommandPermission {
    Everyone,
    GameMaster,
    Admin,
    Console,
}

/// The permission of a level number; the console level from 3 on.
pub open spec fn permission_of(v: u32) -> CommandPermission {
    if v == 0 {
        CommandPermission::Everyone
    } else if v == 1 {
        CommandPermission::GameMaster
    } else if v == 2 {
        CommandPermission::Admin
    } else {
        CommandPermission::Console
    }
}

impl CommandPermission {
    pub fn from_u32(v: u32) -> (r: Self)
        ensures
            r == permission_of(v),
    {
        match v {
            0 => CommandPermission::Everyone,
            1 => CommandPermission::GameMaster,
            2 => CommandPermission::Admin,
            _ => CommandPermission::Console,
        }
    }
}

/// Command signature for registration.
#[derive(Debug, Clone)]
pub struct CommandInfo {
    pub name: String,
    pub description: String,
    pub usage: String,
    pub permission: CommandPermission,
    pub aliases: Vec<String>,
}

impl CommandInfo {
    /// A command open to everyone, with no description, usage or alias.
    pub fn new(name: String) -> (r: Self)
        ensures
            r.name == name,
            r.description@ == Seq::<char>::empty(),
            r.usage@ == Seq::<char>::empty(),
            r.permission == CommandPermission::Everyone,
            r.aliases@ == Seq::<String>::empty(),
    {
        CommandInfo {
            name,
            description: String::new(),
            usage: String::new(),
            permission: CommandPermission::Everyone,
            aliases: Vec::new(),
        }
    }

    pub fn description(self, desc: String) -> (r: Self)
        ensures
            r.name == self.name,
            r.description == desc,
            r.usage == self.usage,
            r.permission == self.permission,
            r.aliases == self.aliases,
    {
        let mut info = self;
        info.description = desc;
        info
    }

    pub fn usage(self, usage: String) -> (r: Self)
        ensures
            r.name == self.name,
            r.description == self.description,
            r.usage == usage,
            r.permission == self.permission,
            r.aliases == self.aliases,
    {
        let mut info = self;
        info.usage = usage;
        info
    }

    pub fn permission(self, perm: CommandPermission) -> (r: Self)
        ensures
            r.name == self.name,
            r.description == self.description,
            r.usage == self.usage,
            r.permission == perm,
            r.aliases == self.aliases,
    {
        let mut info = self;
        info.permission = perm;
        info
    }

    pub fn alias(self, alias: String) -> (r: Self)
        ensures
            r.name == self.name,
            r.description == self.description,
            r.usage == self.usage,
            r.permission == self.permission,
            r.aliases@ == self.aliases@.push(alias),
    {
        let mut info = self;
        info.aliases.push(alias);
        info
    }
}

/// Command execution result.
pub type CommandResult = Result<CommandOutput, CommandError>;

/// Command executor, for commands registered by the library's users.
/// Each executor states, by `execute_gives`, what its results are for a
/// sender, a label and the arguments.
pub trait CommandExecutor: Send + Sync {
    /// `r` is a result this executor gives for a command from `sender`
    /// with `label` and `args`. An executor that states nothing keeps
    /// this default, which admits every result.
    open spec fn execute_gives(
        &self,
        sender: CommandSender,
        label: Seq<char>,
        args: Seq<Seq<char>>,
        r: CommandResult,
    ) -> bool {
        true
    }

    fn execute(&self, ctx: &CommandContext) -> (r: CommandResult)
        ensures
            self.execute_gives(ctx.sender, ctx.label@, string_views(ctx.args@), r),
    ;
}


/// Splitting a command line: the words so far, the word being read,
/// whether inside quotes, and the quote that opened them.
pub type SplitState = (Seq<Seq<char>>, Seq<char>, bool, char);

/// One character of the split: a quote opens quoting when outside
/// quotes, the opening quote closes it, a space or tab outside quotes
/// ends the current word, anything else joins the word.
pub open spec fn split_step(st: SplitState, ch: char) -> SplitState {
    let (parts, cur, in_quotes, quote) = st;
    if (ch == '"' || ch == '\'') && !in_quotes {
        (parts, cur, true, ch)
    } else if (ch == '"' || ch == '\'') && ch == quote {
        (parts, cur, false, quote)
    } else if (ch == ' ' || ch == '\t') && !in_quotes {
        if cur.len() > 0 {
            (parts.push(cur), Seq::empty(), in_quotes, quote)
        } else {
            st
        }
    } else {
        (parts, cur.push(ch), in_quotes, quote)
    }
}

/// The split state after reading `s`.
pub open spec fn split_state(s: Seq<char>) -> SplitState
    decreases s.len(),
{
    if s.len() == 0 {
        (Seq::empty(), Seq::empty(), false, '"')
    } else {
        split_step(split_state(s.drop_last()), s.last())
    }
}

/// The words of `s`.
pub open spec fn split_words(s: Seq<char>) -> Seq<Seq<char>> {
    let st = split_state(s);
    if st.1.len() > 0 {
        st.0.push(st.1)
    } else {
        st.0
    }
}

/// The label and arguments of a command line: it is trimmed, one leading
/// '/' dropped, and split into words; the first word is the label.
pub open spec fn parse_spec(raw: Seq<char>) -> (Seq<char>, Seq<Seq<char>>) {
    let t = trim(raw);
    if t.len() == 0 {
        (Seq::empty(), Seq::empty())
    } else {
        let content = if t[0] == '/' { t.drop_first() } else { t };
        let parts = split_words(content);
        if parts.len() == 0 {
            (Seq::empty(), Seq::empty())
        } else {
            (parts[0], parts.drop_first())
        }
    }
}

/// The split state after reading `s` from the state `st`.
pub open spec fn split_from(st: SplitState, s: Seq<char>) -> SplitState
    decreases s.len(),
{
    if s.len() == 0 {
        st
    } else {
        split_step(split_from(st, s.drop_last()), s.last())
    }
}

proof fn lemma_split_from_start(s: Seq<char>)
    ensures
        split_state(s) == split_from((Seq::empty(), Seq::empty(), false, '"'), s),
    decreases s.len(),
{
    if s.len() > 0 {
        lemma_split_from_start(s.drop_last());
    }
}

proof fn lemma_split_from_concat(st: SplitState, a: Seq<char>, b: Seq<char>)
    ensures
        split_from(st, a + b) == split_from(split_from(st, a), b),
    decreases b.len(),
{
    if b.len() == 0 {
        assert(a + b =~= a);
    } else {
        assert((a + b).drop_last() =~= a + b.drop_last());
        assert((a + b).last() == b.last());
        lemma_split_from_concat(st, a, b.drop_last());
    }
}

/// A character that is no quote, space or tab.
pub open spec fn plain_char(c: char) -> bool {
    c != '"' && c != '\'' && c != ' ' && c != '\t'
}

/// Outside quotes, plain characters join the current word.
proof fn lemma_split_plain(parts: Seq<Seq<char>>, cur: Seq<char>, q: char, s: Seq<char>)
    requires
        forall|i: int| 0 <= i < s.len() ==> plain_char(#[trigger] s[i]),
    ensures
        split_from((parts, cur, false, q), s) == (parts, cur + s, false, q),
    decreases s.len(),
{
    if s.len() == 0 {
        assert(cur + s =~= cur);
    } else {
        lemma_split_plain(parts, cur, q, s.drop_last());
        assert(plain_char(s[s.len() - 1]));
        assert(cur + s.drop_last() + seq![s.last()] =~= cur + s);
    }
}

/// Inside double quotes, every character but a double quote joins the
/// current word, a single quote and white space included.
proof fn lemma_split_quoted(parts: Seq<Seq<char>>, cur: Seq<char>, s: Seq<char>)
    requires
        forall|i: int| 0 <= i < s.len() ==> #[trigger] s[i] != '"',
    ensures
        split_from((parts, cur, true, '"'), s) == (parts, cur + s, true, '"'),
    decreases s.len(),
{
    if s.len() == 0 {
        assert(cur + s =~= cur);
    } else {
        lemma_split_quoted(parts, cur, s.drop_last());
        assert(s[s.len() - 1] != '"');
        assert(cur + s.drop_last() + seq![s.last()] =~= cur + s);
    }
}

/// A double-quoted argument is one argument, whatever it holds but a
/// double quote: the line `/label "text"` parses as the label with the
/// single argument `text`, single quotes, spaces and tabs inside kept.
/// Inside quotes only the quote that opened them closes them.
pub proof fn law_parse_quoted_argument(label: Seq<char>, text: Seq<char>)
    requires
        label.len() > 0,
        forall|i: int| 0 <= i < label.len() ==> plain_char(#[trigger] label[i]),
        text.len() > 0,
        forall|i: int| 0 <= i < text.len() ==> #[trigger] text[i] != '"',
    ensures
        parse_spec(seq!['/'] + label + seq![' ', '"'] + text + seq!['"']) == (label, seq![text]),
{
    let raw = seq!['/'] + label + seq![' ', '"'] + text + seq!['"'];
    let content = label + seq![' ', '"'] + text + seq!['"'];
    assert(!is_ws('/'));
    assert(!is_ws('"'));
    assert(raw[0] == '/');
    assert(raw.last() == '"');
    assert(trim_start(raw) == raw);
    assert(trim_end(raw) == raw);
    assert(raw.drop_first() =~= content);
    let init: SplitState = (Seq::empty(), Seq::empty(), false, '"');
    lemma_split_from_start(content);
    lemma_split_plain(Seq::empty(), Seq::empty(), '"', label);
    assert(Seq::<char>::empty() + label =~= label);
    let s1 = split_from(init, label);
    assert(s1 == (Seq::<Seq<char>>::empty(), label, false, '"'));
    let mid = seq![' ', '"'];
    assert(mid.drop_last() =~= seq![' ']);
    assert(seq![' '].drop_last() =~= Seq::<char>::empty());
    let s2 = split_from(s1, mid);
    assert(split_from(s1, Seq::<char>::empty()) == s1);
    let sp = split_step(s1, ' ');
    assert(Seq::<Seq<char>>::empty().push(label) =~= seq![label]);
    assert(sp == (seq![label], Seq::<char>::empty(), false, '"'));
    assert(split_from(s1, seq![' ']) == sp);
    assert(mid.last() == '"');
    assert(s2 == split_step(sp, '"'));
    assert(s2 == (seq![label], Seq::<char>::empty(), true, '"'));
    lemma_split_quoted(seq![label], Seq::empty(), text);
    assert(Seq::<char>::empty() + text =~= text);
    let s3 = split_from(s2, text);
    assert(s3 == (seq![label], text, true, '"'));
    assert(seq!['"'].drop_last() =~= Seq::<char>::empty());
    let s4 = split_from(s3, seq!['"']);
    assert(split_from(s3, Seq::<char>::empty()) == s3);
    assert(s4 == split_step(s3, '"'));
    assert(s4 == (seq![label], text, false, '"'));
    lemma_split_from_concat(init, label, mid);
    lemma_split_from_concat(init, label + mid, text);
    lemma_split_from_concat(init, label + mid + text, seq!['"']);
    assert(content =~= label + mid + text + seq!['"']);
    assert(split_state(content) == s4);
    assert(split_words(content) =~= seq![label, text]);
    assert(seq![label, text].drop_first() =~= seq![text]);
}

/// The characters of each string.
pub open spec fn string_views(v: Seq<String>) -> Seq<Seq<char>> {
    Seq::new(v.len(), |i: int| v[i]@)
}

/// Command parser.
pub struct CommandParser;

impl CommandParser {
    /// Parse a raw command string into label and arguments.
    pub fn parse(raw: &str) -> (r: (String, Vec<String>))
        ensures
            r.0@ == parse_spec(raw@).0,
            string_views(r.1@) == parse_spec(raw@).1,
    {
        let chars = chars_of(raw);
        let (a, b) = trim_bounds(chars.as_slice());
        if a == b {
            return (String::new(), Vec::new());
        }
        let ghost t = trim(raw@);
        let start = if chars[a] == '/' { a + 1 } else { a };
        let ghost content = chars@.subrange(start as int, b as int);
        assert(content =~= (if t[0] == '/' { t.drop_first() } else { t }));
        let mut parts: Vec<String> = Vec::new();
        let mut current = String::new();
        let mut in_quotes = false;
        let mut quote_char = '"';
        let mut i = start;
        while i < b
            invariant
                start <= i <= b,
                b <= chars@.len(),
                ({
                    let st = split_state(chars@.subrange(start as int, i as int));
                    &&& string_views(parts@) == st.0
                    &&& current@ == st.1
                    &&& in_quotes == st.2
                    &&& quote_char == st.3
                }),
            decreases b - i,
        {
            let ch = chars[i];
            let ghost pre = chars@.subrange(start as int, i as int);
            assert(chars@.subrange(start as int, i + 1).drop_last() =~= pre);
            if (ch == '"' || ch == '\'') && !in_quotes {
                in_quotes = true;
                quote_char = ch;
            } else if (ch == '"' || ch == '\'') && ch == quote_char {
                in_quotes = false;
            } else if (ch == ' ' || ch == '\t') && !in_quotes {
                if !current.as_str().is_empty() {
                    let ghost old_parts = parts@;
                    parts.push(current);
                    current = String::new();
                    assert(string_views(parts@) =~= string_views(old_parts).push(
                        split_state(pre).1,
                    ));
                }
            } else {
                push_char(&mut current, ch);
            }
            i = i + 1;
        }
        assert(chars@.subrange(start as int, b as int) =~= content);
        if !current.as_str().is_empty() {
            let ghost old_parts = parts@;
            parts.push(current);
            assert(string_views(parts@) =~= string_views(old_parts).push(split_state(content).1));
        }
        if parts.len() == 0 {
            return (String::new(), Vec::new());
        }
        let ghost all = parts@;
        let label = parts.remove(0);
        assert(string_views(parts@) =~= string_views(all).drop_first());
        (label, parts)
    }

    /// Parse a player name argument, returning None for "self", "@s" or
    /// empty (after trimming).
    pub fn parse_target(arg: &str) -> (r: Option<String>)
        ensures
            ({
                let t = trim(arg@);
                if t.len() == 0 || eq_ignore_case(t, "self"@) || t == "@s"@ {
                    r is None
                } else {
                    r matches Some(s) && s@ == t
                }
            }),
    {
        let chars = chars_of(arg);
        let (a, b) = trim_bounds(chars.as_slice());
        let self_word = chars_of("self");
        let at_s = chars_of("@s");
        if a == b || eq_ignore_ascii_case(chars.as_slice(), a, b, self_word.as_slice())
            || chars_eq(chars.as_slice(), a, b, at_s.as_slice()) {
            None
        } else {
            Some(string_of(chars.as_slice(), a, b))
        }
    }
}


/// The built-in commands the registry runs itself.
#[derive(Debug, Clone, Copy, PartialEq, Eq, Structural)]
pub enum BuiltinCommand {
    Stop,
    List,
    Say,
    Kick,
    Gamemode,
    Give,
    Time,
    Difficulty,
    Weather,
    Kill,
    Feed,
    SetWorldSpawn,
    Clear,
    Effect,
}

/// What runs a registered command: a built-in, or an executor of the
/// library's user.
pub enum Executor<E: CommandExecutor + ?Sized> {
    Builtin(BuiltinCommand),
    Custom(Arc<E>),
}

/// Argument `i`, or `d` when there are fewer arguments.
pub open spec fn arg_or(args: Seq<Seq<char>>, i: int, d: Seq<char>) -> Seq<char> {
    if i < args.len() { args[i] } else { d }
}

/// Argument `i` read as a u32, or `d` when missing or not a number.
pub open spec fn u32_arg(args: Seq<Seq<char>>, i: int, d: u32) -> u32 {
    let p = if i < args.len() { parse_u32_spec(args[i]) } else { None };
    match p {
        Some(v) => v,
        None => d,
    }
}

/// Argument `i` read as an i32, or `d` when missing or not a number.
pub open spec fn i32_arg(args: Seq<Seq<char>>, i: int, d: i32) -> i32 {
    let p = if i < args.len() { parse_i32_spec(args[i]) } else { None };
    match p {
        Some(v) => v,
        None => d,
    }
}

/// The arguments after the first, joined with spaces.
pub open spec fn rest_joined(args: Seq<Seq<char>>) -> Seq<char> {
    if args.len() > 0 { join(args.drop_first(), " "@) } else { Seq::empty() }
}

/// What a built-in command replies to a sender with the given arguments.
pub open spec fn builtin_outcome(
    b: BuiltinCommand,
    sender: CommandSender,
    args: Seq<Seq<char>>,
    r: CommandResult,
) -> bool {
    match b {
        BuiltinCommand::Stop => replied(r, "Stopping server..."@),
        BuiltinCommand::List => r matches Ok(out) && out.success && out.message@ == "No players online"@
            && out.sender_id == Some(
            match sender {
                CommandSender::Player(id) => id,
                _ => -1i64,
            },
        ),
        BuiltinCommand::Say => replied(r, "Message broadcast"@),
        BuiltinCommand::Kick => replied(r, kick_text(arg_or(args, 0, ""@), rest_joined(args))),
        BuiltinCommand::Gamemode => {
            let mode = arg_or(args, 0, ""@);
            let target = arg_or(args, 1, ""@);
            if is_gamemode_name(lowercase(mode)) {
                replied(r, gamemode_set_text(gamemode_shown(mode, lowercase(mode)), target))
            } else {
                refused(r, gamemode_invalid_text(mode))
            }
        },
        BuiltinCommand::Give => replied(
            r,
            give_text(arg_or(args, 0, ""@), arg_or(args, 1, "stone"@), u32_arg(args, 2, 1)),
        ),
        BuiltinCommand::Time => replied(r, time_text(u32_arg(args, 1, 6000))),
        BuiltinCommand::Difficulty => {
            let level = arg_or(args, 0, "normal"@);
            if is_difficulty_name(lowercase(level)) {
                replied(r, difficulty_set_text(level))
            } else {
                refused(r, difficulty_invalid_text(level))
            }
        },
        BuiltinCommand::Weather => {
            let w = arg_or(args, 0, "clear"@);
            if is_weather_name(lowercase(w)) {
                replied(r, weather_set_text(w))
            } else {
                refused(r, weather_invalid_text(w))
            }
        },
        BuiltinCommand::Kill => replied(r, kill_text(arg_or(args, 0, ""@))),
        BuiltinCommand::Feed => replied(r, feed_text(arg_or(args, 0, ""@), u32_arg(args, 1, 20))),
        BuiltinCommand::SetWorldSpawn => replied(
            r,
            spawn_text(i32_arg(args, 0, 0), i32_arg(args, 1, 64), i32_arg(args, 2, 0)),
        ),
        BuiltinCommand::Clear => replied(r, clear_text(arg_or(args, 0, ""@))),
        BuiltinCommand::Effect => replied(
            r,
            effect_text(arg_or(args, 0, ""@), arg_or(args, 1, "speed"@), u32_arg(args, 2, 30)),
        ),
    }
}

fn arg<'a>(args: &'a Vec<String>, i: usize, d: &'a str) -> (r: &'a str)
    ensures
        r@ == arg_or(string_views(args@), i as int, d@),
{
    if i < args.len() {
        args[i].as_str()
    } else {
        d
    }
}

fn u32_arg_of(args: &Vec<String>, i: usize, d: u32) -> (r: u32)
    ensures
        r == u32_arg(string_views(args@), i as int, d),
{
    let p = if i < args.len() { parse_u32(args[i].as_str()) } else { None };
    match p {
        Some(v) => v,
        None => d,
    }
}

fn i32_arg_of(args: &Vec<String>, i: usize, d: i32) -> (r: i32)
    ensures
        r == i32_arg(string_views(args@), i as int, d),
{
    let p = if i < args.len() { parse_i32(args[i].as_str()) } else { None };
    match p {
        Some(v) => v,
        None => d,
    }
}

/// The arguments after the first, joined with spaces.
fn join_rest(args: &Vec<String>) -> (r: String)
    ensures
        r@ == rest_joined(string_views(args@)),
{
    let mut text = String::new();
    if args.len() == 0 {
        return text;
    }
    let ghost rest = args@.drop_first();
    assert(string_views(args@).drop_first() =~= string_views(rest));
    let mut i: usize = 1;
    while i < args.len()
        invariant
            1 <= i <= args@.len(),
            rest == args@.drop_first(),
            text@ == join(string_views(rest.subrange(0, i - 1)), " "@),
        decreases args@.len() - i,
    {
        let ghost prev = rest.subrange(0, i - 1);
        assert(string_views(rest.subrange(0, i as int)).drop_last() =~= string_views(prev));
        if i > 1 {
            push_str(&mut text, " ");
        } else {
            assert(string_views(prev) =~= Seq::<Seq<char>>::empty());
        }
        push_str(&mut text, args[i].as_str());
        i = i + 1;
        assert(text@ =~= join(string_views(rest.subrange(0, i - 1)), " "@));
    }
    assert(rest.subrange(0, rest.len() as int) =~= rest);
    text
}

/// Run a built-in command on a context.
pub fn run_builtin(b: BuiltinCommand, ctx: &CommandContext) -> (r: CommandResult)
    ensures
        builtin_outcome(b, ctx.sender, string_views(ctx.args@), r),
{
    let args = &ctx.args;
    match b {
        BuiltinCommand::Stop => builtins::stop(ctx),
        BuiltinCommand::List => {
            let none: Vec<String> = Vec::new();
            let r = builtins::list_players(ctx, none.as_slice());
            assert(crate::builtins::player_list_text(none@) == "No players online"@);
            r
        },
        BuiltinCommand::Say => {
            let text = join_rest(args);
            builtins::say(text.as_str())
        },
        BuiltinCommand::Kick => {
            let target = arg(args, 0, "");
            let reason = join_rest(args);
            builtins::kick_player(target, reason.as_str())
        },
        BuiltinCommand::Gamemode => {
            let mode = arg(args, 0, "");
            let target = arg(args, 1, "");
            builtins::gamemode(mode, target)
        },
        BuiltinCommand::Give => {
            let target = arg(args, 0, "");
            let item = arg(args, 1, "stone");
            let amount = u32_arg_of(args, 2, 1);
            builtins::give(target, item, amount)
        },
        BuiltinCommand::Time => {
            let time = u32_arg_of(args, 1, 6000);
            builtins::time_set(time)
        },
        BuiltinCommand::Difficulty => {
            let level = arg(args, 0, "normal");
            builtins::difficulty(level)
        },
        BuiltinCommand::Weather => {
            let w = arg(args, 0, "clear");
            builtins::weather(w)
        },
        BuiltinCommand::Kill => {
            let target = arg(args, 0, "");
            builtins::kill(target)
        },
        BuiltinCommand::Feed => {
            let target = arg(args, 0, "");
            let amount = u32_arg_of(args, 1, 20);
            builtins::feed(target, amount)
        },
        BuiltinCommand::SetWorldSpawn => {
            let x = i32_arg_of(args, 0, 0);
            let y = i32_arg_of(args, 1, 64);
            let z = i32_arg_of(args, 2, 0);
            builtins::set_spawn(x, y, z)
        },
        BuiltinCommand::Clear => {
            let target = arg(args, 0, "");
            builtins::clear_inventory(target)
        },
        BuiltinCommand::Effect => {
            let target = arg(args, 0, "");
            let effect_name = arg(args, 1, "speed");
            let duration = u32_arg_of(args, 2, 30);
            builtins::effect(target, effect_name, duration)
        },
    }
}


/// The first command whose name is `name`.
pub open spec fn name_index(infos: Seq<CommandInfo>, name: Seq<char>) -> Option<int>
    decreases infos.len(),
{
    if infos.len() == 0 {
        None
    } else {
        match name_index(infos.drop_last(), name) {
            Some(i) => Some(i),
            None => if infos.last().name@ == name { Some(infos.len() - 1) } else { None },
        }
    }
}

/// Some alias of the command, lower-cased, is `label`.
pub open spec fn has_alias(info: CommandInfo, label: Seq<char>) -> bool {
    exists|j: int| 0 <= j < info.aliases@.len() && lowercase(#[trigger] info.aliases@[j]@) == label
}

/// The first command with an alias that, lower-cased, is `label`.
pub open spec fn alias_index(infos: Seq<CommandInfo>, label: Seq<char>) -> Option<int>
    decreases infos.len(),
{
    if infos.len() == 0 {
        None
    } else {
        match alias_index(infos.drop_last(), label) {
            Some(i) => Some(i),
            None => if has_alias(infos.last(), label) { Some(infos.len() - 1) } else { None },
        }
    }
}

/// The command a lower-cased label names: by name first, else by alias.
pub open spec fn command_index(infos: Seq<CommandInfo>, label: Seq<char>) -> Option<int> {
    match name_index(infos, label) {
        Some(i) => Some(i),
        None => alias_index(infos, label),
    }
}

proof fn lemma_name_index(s: Seq<CommandInfo>, n: Seq<char>)
    ensures
        name_index(s, n) matches Some(i) ==> 0 <= i < s.len() && s[i].name@ == n && forall|j: int|
            0 <= j < i ==> (#[trigger] s[j]).name@ != n,
        name_index(s, n) is None ==> forall|j: int| 0 <= j < s.len() ==> (#[trigger] s[j]).name@ != n,
    decreases s.len(),
{
    if s.len() > 0 {
        let t = s.drop_last();
        lemma_name_index(t, n);
        assert forall|j: int| 0 <= j < t.len() implies #[trigger] t[j] == s[j] by {}
        assert(s.last() == s[s.len() - 1]);
        if name_index(t, n) is None {
            assert forall|j: int| 0 <= j < s.len() - 1 implies (#[trigger] s[j]).name@ != n by {
                assert(t[j] == s[j]);
            }
        } else {
            let i = name_index(t, n)->0;
            assert forall|j: int| 0 <= j < i implies (#[trigger] s[j]).name@ != n by {
                assert(t[j] == s[j]);
            }
            assert(s[i] == t[i]);
        }
    }
}

proof fn lemma_alias_index(s: Seq<CommandInfo>, l: Seq<char>)
    ensures
        alias_index(s, l) matches Some(i) ==> 0 <= i < s.len() && has_alias(s[i], l) && forall|j: int|
            0 <= j < i ==> !has_alias(#[trigger] s[j], l),
        alias_index(s, l) is None ==> forall|j: int| 0 <= j < s.len() ==> !has_alias(#[trigger] s[j], l),
    decreases s.len(),
{
    if s.len() > 0 {
        let t = s.drop_last();
        lemma_alias_index(t, l);
        assert forall|j: int| 0 <= j < t.len() implies #[trigger] t[j] == s[j] by {}
        assert(s.last() == s[s.len() - 1]);
        if alias_index(t, l) is None {
            assert forall|j: int| 0 <= j < s.len() - 1 implies !has_alias(#[trigger] s[j], l) by {
                assert(t[j] == s[j]);
            }
        } else {
            let i = alias_index(t, l)->0;
            assert forall|j: int| 0 <= j < i implies !has_alias(#[trigger] s[j], l) by {
                assert(t[j] == s[j]);
            }
            assert(s[i] == t[i]);
        }
    }
}

/// What runs a built-in command: the library itself, or one of the three
/// executors handed to `CommandRegistry::new` for the commands whose
/// arguments are floating-point numbers.
pub enum BuiltinRunner {
    Library(BuiltinCommand),
    Heal,
    Teleport,
    Summon,
}

/// The built-in commands, in registration order: name, aliases,
/// description, usage, permission, and what runs it.
pub open spec fn builtin_table() -> Seq<
    (Seq<char>, Seq<Seq<char>>, Seq<char>, Seq<char>, CommandPermission, BuiltinRunner),
> {
    seq![
        ("stop"@, seq![], "Stop the server"@, "/stop"@, CommandPermission::Admin, BuiltinRunner::Library(BuiltinCommand::Stop)),
        ("list"@, seq![], "List online players"@, "/list"@, CommandPermission::Everyone, BuiltinRunner::Library(BuiltinCommand::List)),
        ("say"@, seq![], "Broadcast a message to all players"@, "/say <message>"@, CommandPermission::Admin, BuiltinRunner::Library(BuiltinCommand::Say)),
        ("kick"@, seq![], "Kick a player from the server"@, "/kick <player> [reason]"@, CommandPermission::Admin, BuiltinRunner::Library(BuiltinCommand::Kick)),
        ("gamemode"@, seq!["gm"@], "Change player gamemode"@, "/gamemode <mode> [player]"@, CommandPermission::GameMaster, BuiltinRunner::Library(BuiltinCommand::Gamemode)),
        ("give"@, seq![], "Give an item to a player"@, "/give <player> <item> [amount]"@, CommandPermission::GameMaster, BuiltinRunner::Library(BuiltinCommand::Give)),
        ("time"@, seq![], "Set or query the time"@, "/time set <value>"@, CommandPermission::GameMaster, BuiltinRunner::Library(BuiltinCommand::Time)),
        ("difficulty"@, seq!["difficulty"@], "Set game difficulty"@, "/difficulty <peaceful|easy|normal|hard>"@, CommandPermission::Admin, BuiltinRunner::Library(BuiltinCommand::Difficulty)),
        ("weather"@, seq![], "Set weather"@, "/weather <clear|rain|thunder> [duration]"@, CommandPermission::GameMaster, BuiltinRunner::Library(BuiltinCommand::Weather)),
        ("kill"@, seq![], "Kill entities/players"@, "/kill [player]"@, CommandPermission::GameMaster, BuiltinRunner::Library(BuiltinCommand::Kill)),
        ("heal"@, seq![], "Heal a player"@, "/heal [player] [amount]"@, CommandPermission::GameMaster, BuiltinRunner::Heal),
        ("feed"@, seq![], "Feed a player"@, "/feed [player] [amount]"@, CommandPermission::GameMaster, BuiltinRunner::Library(BuiltinCommand::Feed)),
        ("setworldspawn"@, seq![], "Set the world spawn point"@, "/setworldspawn [x] [y] [z]"@, CommandPermission::Admin, BuiltinRunner::Library(BuiltinCommand::SetWorldSpawn)),
        ("clear"@, seq![], "Clear player inventory"@, "/clear [player]"@, CommandPermission::GameMaster, BuiltinRunner::Library(BuiltinCommand::Clear)),
        ("effect"@, seq![], "Give/take effects"@, "/effect <player> <effect> [duration] [amplifier]"@, CommandPermission::GameMaster, BuiltinRunner::Library(BuiltinCommand::Effect)),
        ("tp"@, seq!["teleport"@], "Teleport players/entities"@, "/tp [player] <x> <y> <z>"@, CommandPermission::GameMaster, BuiltinRunner::Teleport),
        ("summon"@, seq![], "Summon an entity"@, "/summon <entity> [x] [y] [z]"@, CommandPermission::GameMaster, BuiltinRunner::Summon),
    ]
}

/// The executor a runner of `builtin_table` stands for, given the three
/// executors of the floating-point commands.
pub open spec fn runner_executor<E: CommandExecutor + ?Sized>(
    r: BuiltinRunner,
    heal: Arc<E>,
    teleport: Arc<E>,
    summon: Arc<E>,
) -> Executor<E> {
    match r {
        BuiltinRunner::Library(b) => Executor::Builtin(b),
        BuiltinRunner::Heal => Executor::Custom(heal),
        BuiltinRunner::Teleport => Executor::Custom(teleport),
        BuiltinRunner::Summon => Executor::Custom(summon),
    }
}

/// Command registry: commands in registration order, each with its info
/// and what runs it.
pub struct CommandRegistry<E: CommandExecutor + ?Sized> {
    entries: Vec<(CommandInfo, Executor<E>)>,
}

/// What running a command with `label` gives on a registry whose commands
/// are `infos`, run by `executors`: the label, lower-cased, is looked up by
/// name, then by alias; an unknown label is an error; a built-in command
/// gives what `builtin_outcome` says, a user's executor a result that it
/// states by `execute_gives`.
pub open spec fn execute_outcome<E: CommandExecutor + ?Sized>(
    infos: Seq<CommandInfo>,
    executors: Seq<Executor<E>>,
    sender: CommandSender,
    label: Seq<char>,
    args: Seq<Seq<char>>,
    r: CommandResult,
) -> bool {
    match command_index(infos, lowercase(label)) {
        None => r matches Err(CommandError::UnknownCommand(l)) && l@ == label,
        Some(i) => match executors[i] {
            Executor::Builtin(b) => builtin_outcome(b, sender, args, r),
            Executor::Custom(e) => e.execute_gives(sender, label, args, r),
        },
    }
}

/// `after` is `before` with `info` registered, run by `executor`: it
/// replaces the command of the same name, or comes last.
pub open spec fn registered<E: CommandExecutor + ?Sized>(
    before: CommandRegistry<E>,
    after: CommandRegistry<E>,
    info: CommandInfo,
    executor: Arc<E>,
) -> bool {
    match name_index(before.spec_infos(), info.name@) {
        Some(i) => after.spec_infos() == before.spec_infos().update(i, info)
            && after.spec_executors() == before.spec_executors().update(i, Executor::Custom(executor)),
        None => after.spec_infos() == before.spec_infos().push(info)
            && after.spec_executors() == before.spec_executors().push(Executor::Custom(executor)),
    }
}

impl<E: CommandExecutor + ?Sized> CommandRegistry<E> {
    /// The registered commands' infos, in registration order.
    pub closed spec fn spec_infos(self) -> Seq<CommandInfo> {
        Seq::new(self.entries@.len(), |i: int| self.entries@[i].0)
    }

    /// What runs each registered command.
    pub closed spec fn spec_executors(self) -> Seq<Executor<E>> {
        Seq::new(self.entries@.len(), |i: int| self.entries@[i].1)
    }

    /// The registry holds exactly the built-in commands of `builtin_table`,
    /// the floating-point ones run by `heal`, `teleport` and `summon`.
    pub open spec fn holds_builtins(self, heal: Arc<E>, teleport: Arc<E>, summon: Arc<E>) -> bool {
        &&& self.spec_infos().len() == builtin_table().len()
        &&& self.spec_executors().len() == builtin_table().len()
        &&& forall|i: int|
            0 <= i < builtin_table().len() ==> {
                let t = #[trigger] builtin_table()[i];
                let info = self.spec_infos()[i];
                &&& info.name@ == t.0
                &&& string_views(info.aliases@) == t.1
                &&& info.description@ == t.2
                &&& info.usage@ == t.3
                &&& info.permission == t.4
                &&& self.spec_executors()[i] == runner_executor(t.5, heal, teleport, summon)
            }
    }

    fn add_builtin(&mut self, info: CommandInfo, b: BuiltinCommand)
        ensures
            final(self).spec_infos() == old(self).spec_infos().push(info),
            final(self).spec_executors() == old(self).spec_executors().push(Executor::Builtin(b)),
    {
        self.entries.push((info, Executor::Builtin(b)));
        assert(self.spec_infos() =~= old(self).spec_infos().push(info));
        assert(self.spec_executors() =~= old(self).spec_executors().push(Executor::Builtin(b)));
    }

    fn add_custom(&mut self, info: CommandInfo, e: Arc<E>)
        ensures
            final(self).spec_infos() == old(self).spec_infos().push(info),
            final(self).spec_executors() == old(self).spec_executors().push(Executor::Custom(e)),
    {
        self.entries.push((info, Executor::Custom(e)));
        assert(self.spec_infos() =~= old(self).spec_infos().push(info));
        assert(self.spec_executors() =~= old(self).spec_executors().push(Executor::Custom(e)));
    }

    /// A registry holding the seventeen built-in commands (see
    /// `builtin_table`). `heal`, `tp` and `summon` take floating-point
    /// arguments; the caller hands in their executors.
    pub fn new(heal: Arc<E>, teleport: Arc<E>, summon: Arc<E>) -> (r: Self)
        ensures
            r.holds_builtins(heal, teleport, summon),
            r.spec_infos().len() == 17,
    {
        let mut registry = CommandRegistry { entries: Vec::new() };
        assert(registry.spec_infos() =~= Seq::<CommandInfo>::empty());
        assert(registry.spec_executors() =~= Seq::<Executor<E>>::empty());
        registry.add_builtin(
            CommandInfo::new(owned("stop")).description(owned("Stop the server")).usage(owned("/stop"))
                .permission(CommandPermission::Admin),
            BuiltinCommand::Stop,
        );
        registry.add_builtin(
            CommandInfo::new(owned("list")).description(owned("List online players")).usage(
                owned("/list"),
            ).permission(CommandPermission::Everyone),
            BuiltinCommand::List,
        );
        registry.add_builtin(
            CommandInfo::new(owned("say")).description(owned("Broadcast a message to all players"))
                .usage(owned("/say <message>")).permission(CommandPermission::Admin),
            BuiltinCommand::Say,
        );
        registry.add_builtin(
            CommandInfo::new(owned("kick")).description(owned("Kick a player from the server")).usage(
                owned("/kick <player> [reason]"),
            ).permission(CommandPermission::Admin),
            BuiltinCommand::Kick,
        );
        registry.add_builtin(
            CommandInfo::new(owned("gamemode")).alias(owned("gm")).description(
                owned("Change player gamemode"),
            ).usage(owned("/gamemode <mode> [player]")).permission(CommandPermission::GameMaster),
            BuiltinCommand::Gamemode,
        );
        registry.add_builtin(
            CommandInfo::new(owned("give")).description(owned("Give an item to a player")).usage(
                owned("/give <player> <item> [amount]"),
            ).permission(CommandPermission::GameMaster),
            BuiltinCommand::Give,
        );
        registry.add_builtin(
            CommandInfo::new(owned("time")).description(owned("Set or query the time")).usage(
                owned("/time set <value>"),
            ).permission(CommandPermission::GameMaster),
            BuiltinCommand::Time,
        );
        registry.add_builtin(
            CommandInfo::new(owned("difficulty")).alias(owned("difficulty")).description(
                owned("Set game difficulty"),
            ).usage(owned("/difficulty <peaceful|easy|normal|hard>")).permission(
                CommandPermission::Admin,
            ),
            BuiltinCommand::Difficulty,
        );
        registry.add_builtin(
            CommandInfo::new(owned("weather")).description(owned("Set weather")).usage(
                owned("/weather <clear|rain|thunder> [duration]"),
            ).permission(CommandPermission::GameMaster),
            BuiltinCommand::Weather,
        );
        registry.add_builtin(
            CommandInfo::new(owned("kill")).description(owned("Kill entities/players")).usage(
                owned("/kill [player]"),
            ).permission(CommandPermission::GameMaster),
            BuiltinCommand::Kill,
        );
        registry.add_custom(
            CommandInfo::new(owned("heal")).description(owned("Heal a player")).usage(
                owned("/heal [player] [amount]"),
            ).permission(CommandPermission::GameMaster),
            heal,
        );
        registry.add_builtin(
            CommandInfo::new(owned("feed")).description(owned("Feed a player")).usage(
                owned("/feed [player] [amount]"),
            ).permission(CommandPermission::GameMaster),
            BuiltinCommand::Feed,
        );
        registry.add_builtin(
            CommandInfo::new(owned("setworldspawn")).description(owned("Set the world spawn point"))
                .usage(owned("/setworldspawn [x] [y] [z]")).permission(CommandPermission::Admin),
            BuiltinCommand::SetWorldSpawn,
        );
        registry.add_builtin(
            CommandInfo::new(owned("clear")).description(owned("Clear player inventory")).usage(
                owned("/clear [player]"),
            ).permission(CommandPermission::GameMaster),
            BuiltinCommand::Clear,
        );
        registry.add_builtin(
            CommandInfo::new(owned("effect")).description(owned("Give/take effects")).usage(
                owned("/effect <player> <effect> [duration] [amplifier]"),
            ).permission(CommandPermission::GameMaster),
            BuiltinCommand::Effect,
        );
        registry.add_custom(
            CommandInfo::new(owned("tp")).alias(owned("teleport")).description(
                owned("Teleport players/entities"),
            ).usage(owned("/tp [player] <x> <y> <z>")).permission(CommandPermission::GameMaster),
            teleport,
        );
        registry.add_custom(
            CommandInfo::new(owned("summon")).description(owned("Summon an entity")).usage(
                owned("/summon <entity> [x] [y] [z]"),
            ).permission(CommandPermission::GameMaster),
            summon,
        );
        assert forall|i: int| 0 <= i < builtin_table().len() implies {
            let t = #[trigger] builtin_table()[i];
            let info = registry.spec_infos()[i];
            &&& info.name@ == t.0
            &&& string_views(info.aliases@) == t.1
            &&& info.description@ == t.2
            &&& info.usage@ == t.3
            &&& info.permission == t.4
            &&& registry.spec_executors()[i] == runner_executor(t.5, heal, teleport, summon)
        } by {
            assert(string_views(Seq::<String>::empty()) =~= Seq::<Seq<char>>::empty());
            if i == 4 {
                assert(string_views(registry.spec_infos()[i].aliases@) =~= seq!["gm"@]);
            }
            if i == 7 {
                assert(string_views(registry.spec_infos()[i].aliases@) =~= seq!["difficulty"@]);
            }
            if i == 15 {
                assert(string_views(registry.spec_infos()[i].aliases@) =~= seq!["teleport"@]);
            }
        }
        registry
    }

    fn name_position(&self, name: &str) -> (r: Option<usize>)
        ensures
            match r {
                Some(i) => name_index(self.spec_infos(), name@) == Some(i as int),
                None => name_index(self.spec_infos(), name@) is None,
            },
    {
        proof {
            lemma_name_index(self.spec_infos(), name@);
        }
        let n = self.entries.len();
        let mut i: usize = 0;
        while i < n
            invariant
                n == self.entries@.len(),
                n == self.spec_infos().len(),
                i <= n,
                forall|j: int| 0 <= j < i ==> (#[trigger] self.spec_infos()[j]).name@ != name@,
            decreases n - i,
        {
            if str_eq(self.entries[i].0.name.as_str(), name) {
                assert(self.spec_infos()[i as int].name@ == name@);
                proof {
                    lemma_name_index(self.spec_infos(), name@);
                }
                return Some(i);
            }
            assert(self.spec_infos()[i as int].name@ != name@);
            i = i + 1;
        }
        None
    }

    fn alias_position(&self, label: &str) -> (r: Option<usize>)
        ensures
            match r {
                Some(i) => alias_index(self.spec_infos(), label@) == Some(i as int),
                None => alias_index(self.spec_infos(), label@) is None,
            },
    {
        proof {
            lemma_alias_index(self.spec_infos(), label@);
        }
        let n = self.entries.len();
        let mut i: usize = 0;
        while i < n
            invariant
                n == self.entries@.len(),
                n == self.spec_infos().len(),
                i <= n,
                forall|j: int| 0 <= j < i ==> !has_alias(#[trigger] self.spec_infos()[j], label@),
            decreases n - i,
        {
            let aliases = &self.entries[i].0.aliases;
            let ghost info = self.spec_infos()[i as int];
            assert(info.aliases == *aliases);
            let mut k: usize = 0;
            while k < aliases.len()
                invariant
                    k <= aliases@.len(),
                    info.aliases == *aliases,
                    n == self.spec_infos().len(),
                    i < n,
                    info == self.spec_infos()[i as int],
                    forall|j: int| 0 <= j < i ==> !has_alias(#[trigger] self.spec_infos()[j], label@),
                    forall|j: int| 0 <= j < k ==> lowercase(#[trigger] aliases@[j]@) != label@,
                decreases aliases@.len() - k,
            {
                let lowered = to_lower(aliases[k].as_str());
                if str_eq(lowered.as_str(), label) {
                    assert(has_alias(info, label@));
                    proof {
                        lemma_alias_index(self.spec_infos(), label@);
                    }
                    return Some(i);
                }
                k = k + 1;
            }
            assert(!has_alias(info, label@));
            i = i + 1;
        }
        None
    }

    /// The command a lower-cased label names: by name, else by alias.
    pub fn find_command(&self, lowered: &str) -> (r: Option<usize>)
        ensures
            match r {
                Some(i) => command_index(self.spec_infos(), lowered@) == Some(i as int),
                None => command_index(self.spec_infos(), lowered@) is None,
            },
    {
        match self.name_position(lowered) {
            Some(i) => Some(i),
            None => self.alias_position(lowered),
        }
    }

    /// Register a command, replacing one of the same name.
    pub fn register(&mut self, info: CommandInfo, executor: Arc<E>)
        ensures
            registered(*old(self), *final(self), info, executor),
    {
        let pos = self.name_position(info.name.as_str());
        proof {
            lemma_name_index(self.spec_infos(), info.name@);
        }
        let ghost ex = Executor::<E>::Custom(executor);
        match pos {
            Some(i) => {
                assert(name_index(old(self).spec_infos(), info.name@) == Some(i as int));
                self.entries.set(i, (info, Executor::Custom(executor)));
                assert(self.spec_infos() =~= old(self).spec_infos().update(i as int, info));
                assert(self.spec_executors() =~= old(self).spec_executors().update(i as int, ex));
            },
            None => {
                self.entries.push((info, Executor::Custom(executor)));
                assert(self.spec_infos() =~= old(self).spec_infos().push(info));
                assert(self.spec_executors() =~= old(self).spec_executors().push(ex));
            },
        }
    }

    /// Execute a command: the label is lower-cased and looked up by name,
    /// then by alias; an unknown label is an error.
    pub fn execute(&self, ctx: &CommandContext) -> (r: CommandResult)
        ensures
            execute_outcome(
                self.spec_infos(),
                self.spec_executors(),
                ctx.sender,
                ctx.label@,
                string_views(ctx.args@),
                r,
            ),
    {
        let lowered = to_lower(ctx.label.as_str());
        proof {
            lemma_name_index(self.spec_infos(), lowered@);
            lemma_alias_index(self.spec_infos(), lowered@);
        }
        match self.find_command(lowered.as_str()) {
            None => Err(CommandError::UnknownCommand(ctx.label.clone())),
            Some(i) => {
                assert(command_index(self.spec_infos(), lowercase(ctx.label@)) == Some(i as int));
                assert(self.spec_executors()[i as int] == self.entries@[i as int].1);
                match &self.entries[i].1 {
                    Executor::Builtin(b) => {
                        let r = run_builtin(*b, ctx);
                        assert(self.spec_executors()[i as int] == Executor::<E>::Builtin(*b));
                        r
                    },
                    Executor::Custom(e) => {
                        let r = e.execute(ctx);
                        assert(self.spec_executors()[i as int] == Executor::<E>::Custom(*e));
                        r
                    },
                }
            },
        }
    }

    /// Parse a command line and execute it; an empty line is refused.
    pub fn execute_line(&self, raw: &str, sender: CommandSender) -> (r: CommandResult)
        ensures
            ({
                let (label, args) = parse_spec(raw@);
                if label.len() == 0 {
                    r matches Err(CommandError::InvalidArguments(m)) && m@ == "Empty command"@
                } else {
                    execute_outcome(self.spec_infos(), self.spec_executors(), sender, label, args, r)
                }
            }),
    {
        let (label, args) = CommandParser::parse(raw);
        if label.as_str().is_empty() {
            return Err(CommandError::InvalidArguments(owned("Empty command")));
        }
        let ctx = CommandContext::new(sender, label, args);
        self.execute(&ctx)
    }

    /// Get command info by exact name.
    pub fn get_info(&self, name: &str) -> (r: Option<&CommandInfo>)
        ensures
            match name_index(self.spec_infos(), name@) {
                Some(i) => r == Some(&self.spec_infos()[i]),
                None => r is None,
            },
    {
        proof {
            lemma_name_index(self.spec_infos(), name@);
        }
        match self.name_position(name) {
            Some(i) => {
                assert(self.spec_infos()[i as int] == self.entries@[i as int].0);
                Some(&self.entries[i].0)
            },
            None => None,
        }
    }

    /// Get all registered commands, in registration order.
    pub fn commands(&self) -> (r: Vec<&CommandInfo>)
        ensures
            r@.len() == self.spec_infos().len(),
            forall|i: int| 0 <= i < r@.len() ==> *r@[i] == self.spec_infos()[i],
    {
        let mut out: Vec<&CommandInfo> = Vec::new();
        let mut i: usize = 0;
        while i < self.entries.len()
            invariant
                i <= self.entries@.len(),
                out@.len() == i,
                forall|j: int| 0 <= j < i ==> *out@[j] == self.spec_infos()[j],
            decreases self.entries@.len() - i,
        {
            out.push(&self.entries[i].0);
            i = i + 1;
        }
        out
    }
}


/// A command added with `register` is run by its own executor: on the
/// registry after the call, what a label whose lower-case form is the new
/// command's name gives is exactly what that executor states it gives.
pub proof fn law_register_then_execute<E: CommandExecutor + ?Sized>(
    before: CommandRegistry<E>,
    after: CommandRegistry<E>,
    info: CommandInfo,
    executor: Arc<E>,
    sender: CommandSender,
    label: Seq<char>,
    args: Seq<Seq<char>>,
    r: CommandResult,
)
    requires
        registered(before, after, info, executor),
        lowercase(label) == info.name@,
    ensures
        execute_outcome(after.spec_infos(), after.spec_executors(), sender, label, args, r)
            == executor.execute_gives(sender, label, args, r),
{
    let s = before.spec_infos();
    let t = after.spec_infos();
    let n = info.name@;
    lemma_name_index(s, n);
    lemma_name_index(t, n);
    match name_index(s, n) {
        Some(i) => {
            assert(t[i].name@ == n);
            if let Some(k) = name_index(t, n) {
                if k < i {
                    assert(t[k] == s[k]);
                }
            }
            assert(name_index(t, n) == Some(i));
        },
        None => {
            assert(t.drop_last() =~= s);
            assert(name_index(t, n) == Some(s.len() as int));
        },
    }
}

} // verus!
