use hyprly::daemon::{parse_command, DaemonCommand};

#[test]
fn parses_control_lines() {
    assert_eq!(parse_command("toggle\n"), Some(DaemonCommand::Toggle));
    assert_eq!(parse_command("  quit  "), Some(DaemonCommand::Quit));
    assert_eq!(parse_command("Toggle"), None);
    assert_eq!(parse_command(""), None);
}
