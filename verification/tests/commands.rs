use chess_relay::command::{parse_command, split_command, str_eq, Command};

#[test]
fn parse_move_command() {
    assert_eq!(
        parse_command("move:e2e4"),
        Command::Move("e2e4".to_string())
    );
}

#[test]
fn parse_turn_command() {
    assert_eq!(parse_command("turn:"), Command::Turn);
    assert_eq!(parse_command("turn:ignored"), Command::Turn);
}

#[test]
fn parse_unknown_action_is_other() {
    assert_eq!(parse_command("hello:world"), Command::Other);
    assert_eq!(parse_command(":"), Command::Other);
}

#[test]
fn parse_without_separator_is_malformed() {
    assert_eq!(parse_command(""), Command::Malformed);
    assert_eq!(parse_command("move"), Command::Malformed);
}

#[test]
fn parse_with_two_separators_is_malformed() {
    assert_eq!(parse_command("a:b:c"), Command::Malformed);
    assert_eq!(parse_command("::"), Command::Malformed);
}

#[test]
fn actions_are_case_sensitive() {
    assert_eq!(parse_command("Move:e2e4"), Command::Other);
    assert_eq!(parse_command("TURN:"), Command::Other);
}

#[test]
fn split_yields_action_and_argument() {
    let (action, argument) = split_command("move:e2 e4").unwrap();
    assert_eq!(action, "move");
    assert_eq!(argument, "e2 e4");
}

#[test]
fn split_keeps_empty_parts() {
    let (action, argument) = split_command("turn:").unwrap();
    assert_eq!(action, "turn");
    assert_eq!(argument, "");
}

#[test]
fn split_rejects_zero_and_many_separators() {
    assert!(split_command("plain text").is_none());
    assert!(split_command("a:b:c:d").is_none());
}

#[test]
fn str_eq_compares_by_characters() {
    assert!(str_eq("move", "move"));
    assert!(!str_eq("move", "mov"));
    assert!(!str_eq("move", "turn"));
    assert!(str_eq("", ""));
}
