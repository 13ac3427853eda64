use rustmine::commands::{
    CommandContext, CommandError, CommandExecutor, CommandInfo, CommandParser, CommandRegistry, CommandResult,
    CommandSender,
};
use rustmine::builtins::{gamemode, give, kick_player, set_spawn, time_set};
use std::sync::Arc;

type Registry = CommandRegistry<dyn CommandExecutor>;

/// Stands in for the floating-point commands, which the program supplies.
struct FloatStub(&'static str);

impl CommandExecutor for FloatStub {
    fn execute(&self, _ctx: &CommandContext) -> CommandResult {
        Ok(rustmine::commands::CommandOutput::success(self.0.to_string()))
    }
}

fn registry() -> Registry {
    Registry::new(Arc::new(FloatStub("heal")), Arc::new(FloatStub("tp")), Arc::new(FloatStub("summon")))
}

#[test]
fn test_parse_simple() {
    let (label, args) = CommandParser::parse("/test arg1 arg2");
    assert_eq!(label, "test");
    assert_eq!(args, vec!["arg1", "arg2"]);
}

#[test]
fn test_parse_no_slash() {
    let (label, args) = CommandParser::parse("help me");
    assert_eq!(label, "help");
    assert_eq!(args, vec!["me"]);
}

#[test]
fn test_parse_quoted() {
    let (label, args) = CommandParser::parse("/say \"Hello World\"");
    assert_eq!(label, "say");
    assert_eq!(args, vec!["Hello World"]);
}

#[test]
fn test_parse_target() {
    assert_eq!(CommandParser::parse_target(""), None);
    assert_eq!(CommandParser::parse_target("@s"), None);
    assert_eq!(CommandParser::parse_target("self"), None);
    assert_eq!(CommandParser::parse_target("Steve"), Some("Steve".to_string()));
}

#[test]
fn test_execute_stop() {
    let manager = registry();
    let result = manager.execute_line("/stop", CommandSender::Console);
    assert!(result.is_ok());
    assert!(result.unwrap().success);
}

#[test]
fn test_execute_unknown() {
    let manager = registry();
    let result = manager.execute_line("/unknown_command", CommandSender::Console);
    assert!(result.is_err());
}

#[test]
fn test_gamemode_command() {
    let manager = registry();

    let result = manager.execute_line("/gamemode creative", CommandSender::Player(1));
    assert!(result.is_ok());

    let result = manager.execute_line("/gamemode invalid", CommandSender::Player(1));
    assert!(result.is_ok());
    assert!(!result.unwrap().success);
}

#[test]
fn test_command_context() {
    let ctx = CommandContext::new(CommandSender::Player(123), "test".to_string(), vec!["arg1".to_string()]);

    assert!(ctx.sender.is_player());
    assert_eq!(ctx.sender.player_id(), Some(123));
}

#[test]
fn parse_trims_and_collapses_spaces() {
    let (label, args) = CommandParser::parse("   /give  Steve   diamond 3  ");
    assert_eq!(label, "give");
    assert_eq!(args, vec!["Steve", "diamond", "3"]);
}

#[test]
fn parse_single_quotes_and_empty_line() {
    let (label, args) = CommandParser::parse("kick 'Bad Guy' spam");
    assert_eq!(label, "kick");
    assert_eq!(args, vec!["Bad Guy", "spam"]);
    let (label, args) = CommandParser::parse("   ");
    assert_eq!(label, "");
    assert!(args.is_empty());
}

#[test]
fn empty_line_is_refused() {
    let manager = registry();
    match manager.execute_line("  ", CommandSender::Console) {
        Err(CommandError::InvalidArguments(m)) => assert_eq!(m, "Empty command"),
        _ => panic!("expected InvalidArguments"),
    }
}

#[test]
fn unknown_command_keeps_label() {
    let manager = registry();
    match manager.execute_line("/Nope x", CommandSender::Console) {
        Err(CommandError::UnknownCommand(l)) => assert_eq!(l, "Nope"),
        _ => panic!("expected UnknownCommand"),
    }
}

#[test]
fn labels_are_case_insensitive_and_aliases_work() {
    let manager = registry();
    let r = manager.execute_line("/STOP", CommandSender::Console).unwrap();
    assert_eq!(r.message, "Stopping server...");
    let r = manager.execute_line("/gm creative Alex", CommandSender::Console).unwrap();
    assert!(r.success);
    assert_eq!(r.message, "Set gamemode of Alex to creative");
}

#[test]
fn gamemode_invalid_message() {
    let manager = registry();
    let r = manager.execute_line("/gamemode flying", CommandSender::Player(7)).unwrap();
    assert!(!r.success);
    assert_eq!(r.message, "Invalid gamemode 'flying'. Valid: survival, creative, adventure, spectator");
}

#[test]
fn give_and_time_messages() {
    let manager = registry();
    let r = manager.execute_line("/give Steve diamond 3", CommandSender::Console).unwrap();
    assert_eq!(r.message, "Gave 3 diamond items to Steve");
    let r = manager.execute_line("/time set 1000", CommandSender::Console).unwrap();
    assert_eq!(r.message, "Set time to 1000");
    let r = time_set(6000).unwrap();
    assert_eq!(r.message, "Set time to 6000");
}

#[test]
fn builtin_helpers() {
    let r = kick_player("Steve", "").unwrap();
    assert_eq!(r.message, "Kicked player 'Steve' for: No reason given");
    let r = gamemode("adventure", "").unwrap();
    assert!(r.success);
    let r = give("Alex", "apple", 1).unwrap();
    assert!(r.success);
    let r = set_spawn(1, -2, 3).unwrap();
    assert_eq!(r.message, "Set spawn point to (1, -2, 3)");
}

#[test]
fn registry_lists_builtins() {
    let manager = registry();
    assert!(manager.get_info("stop").is_some());
    assert!(manager.get_info("gm").is_none());
    assert_eq!(manager.commands().len(), 17);
}

struct Echo;

impl CommandExecutor for Echo {
    fn execute(&self, ctx: &CommandContext) -> CommandResult {
        Ok(rustmine::commands::CommandOutput::success(ctx.args.join(" ")))
    }
}

#[test]
fn custom_command_runs() {
    let mut manager = registry();
    let info = CommandInfo::new("echo".to_string()).alias("e".to_string());
    manager.register(info, Arc::new(Echo));
    let r = manager.execute_line("/e hello there", CommandSender::Console).unwrap();
    assert_eq!(r.message, "hello there");
}

#[test]
fn gamemode_accepts_numbers() {
    let r = gamemode("0", "").unwrap();
    assert!(r.success);
    assert_eq!(r.message, "Set gamemode of yourself to survival");
    assert_eq!(gamemode("1", "Alex").unwrap().message, "Set gamemode of Alex to creative");
    assert_eq!(gamemode("2", "").unwrap().message, "Set gamemode of yourself to adventure");
    assert_eq!(gamemode("3", "").unwrap().message, "Set gamemode of yourself to spectator");
    let r = gamemode("4", "").unwrap();
    assert!(!r.success);
    assert_eq!(r.message, "Invalid gamemode '4'. Valid: survival, creative, adventure, spectator");
    let manager = registry();
    let r = manager.execute_line("/gamemode 1", CommandSender::Player(2)).unwrap();
    assert!(r.success);
    assert_eq!(r.message, "Set gamemode of yourself to creative");
    let r = gamemode("Creative", "").unwrap();
    assert_eq!(r.message, "Set gamemode of yourself to Creative");
}

struct Tagged;

impl CommandExecutor for Tagged {
    fn execute(&self, ctx: &CommandContext) -> CommandResult {
        Ok(rustmine::commands::CommandOutput::success(format!("{}:{}", ctx.label, ctx.args.join(","))))
    }
}

#[test]
fn registered_command_runs_its_executor() {
    let mut manager = registry();
    assert!(manager.execute_line("/echo a b", CommandSender::Console).is_err());
    manager.register(CommandInfo::new("echo".to_string()), Arc::new(Tagged));
    let r = manager.execute_line("/Echo a b", CommandSender::Console).unwrap();
    assert!(r.success);
    assert_eq!(r.message, "Echo:a,b");
    // A registration under a built-in's name replaces it.
    manager.register(CommandInfo::new("stop".to_string()), Arc::new(Tagged));
    let r = manager.execute_line("/stop now", CommandSender::Console).unwrap();
    assert_eq!(r.message, "stop:now");
}

#[test]
fn registry_holds_seventeen_builtins() {
    let manager = registry();
    let mut names: Vec<String> = manager.commands().iter().map(|i| i.name.clone()).collect();
    names.sort();
    let mut want = vec![
        "stop", "list", "say", "kick", "gamemode", "give", "time", "difficulty", "weather", "kill", "heal", "feed",
        "setworldspawn", "clear", "effect", "tp", "summon",
    ];
    want.sort();
    assert_eq!(names, want);
    assert!(manager.get_info("gamemode").unwrap().aliases.contains(&"gm".to_string()));
    assert!(manager.get_info("tp").unwrap().aliases.contains(&"teleport".to_string()));
    assert_eq!(manager.get_info("heal").unwrap().usage, "/heal [player] [amount]");
    // The float commands run the executors handed in.
    assert_eq!(manager.execute_line("/teleport 1 2 3", CommandSender::Console).unwrap().message, "tp");
    assert_eq!(manager.execute_line("/HEAL", CommandSender::Console).unwrap().message, "heal");
    assert_eq!(manager.execute_line("/summon pig", CommandSender::Console).unwrap().message, "summon");
}
