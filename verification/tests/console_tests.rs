use rustmine::console::{console_action, reply_stops_console, ConsoleAction};
use rustmine::session::entity_id_for;

#[test]
fn console_words_are_case_insensitive() {
    assert_eq!(console_action(""), ConsoleAction::Skip);
    assert_eq!(console_action("   \t"), ConsoleAction::Skip);
    assert_eq!(console_action("stop"), ConsoleAction::Stop);
    assert_eq!(console_action("  EXIT \n"), ConsoleAction::Stop);
    assert_eq!(console_action("List"), ConsoleAction::ListPlayers);
    assert_eq!(console_action("players"), ConsoleAction::ListPlayers);
    assert_eq!(console_action("TPS"), ConsoleAction::ShowTps);
    assert_eq!(console_action("stop now"), ConsoleAction::Execute);
    assert_eq!(console_action("say hi"), ConsoleAction::Execute);
    assert_eq!(console_action("stopp"), ConsoleAction::Execute);
}

#[test]
fn stopping_reply_ends_console() {
    assert!(reply_stops_console("Stopping server..."));
    assert!(reply_stops_console("now Stopping"));
    assert!(!reply_stops_console("stopping"));
    assert!(!reply_stops_console("Stop"));
    assert!(!reply_stops_console(""));
}

#[test]
fn entity_ids_count_from_one() {
    assert_eq!(entity_id_for(0), 1);
    assert_eq!(entity_id_for(41), 42);
}
