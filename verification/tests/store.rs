use watchxy::store::{
    commands_from_json, commands_to_json, parse_command_tokens, parse_commands_file, RuntimeConfig,
    StoreError,
};
use watchxy::tab_picker::command_title;

#[test]
fn load_commands_from_file_parses_lines_like_dash_c() {
    let content = "git status\n\n# comment\ndf -h\n  uptime  \n";
    assert_eq!(
        parse_commands_file(content).unwrap(),
        vec![vec!["git", "status"], vec!["df", "-h"], vec!["uptime"],]
    );
}

#[test]
fn load_commands_from_file_errors_when_empty() {
    let content = "# only comments\n\n";
    assert!(parse_commands_file(content).is_err());
}

#[test]
fn commands_file_without_commands_reports_no_commands() {
    assert_eq!(parse_commands_file(""), Err(StoreError::NoCommands));
    assert_eq!(parse_commands_file("  # x\n\t\n"), Err(StoreError::NoCommands));
}

#[test]
fn commands_file_handles_crlf_and_indented_comments() {
    let content = "ls -l\r\n   # note\r\n\tpwd\r\nlast";
    assert_eq!(
        parse_commands_file(content).unwrap(),
        vec![vec!["ls", "-l"], vec!["pwd"], vec!["last"]]
    );
}

#[test]
fn parse_command_tokens_splits_on_spaces_and_drops_empty_pieces() {
    assert_eq!(parse_command_tokens("  echo   hello world "), vec!["echo", "hello", "world"]);
    assert!(parse_command_tokens("").is_empty());
    assert!(parse_command_tokens("    ").is_empty());
    // Only the space character separates words.
    assert_eq!(parse_command_tokens("a\tb"), vec!["a\tb"]);
}

#[test]
fn from_legacy_holds_the_single_command() {
    let config = RuntimeConfig::from_legacy(1500, "git  log -1".to_string());
    assert_eq!(config.interval, 1500);
    assert_eq!(config.command, "git  log -1");
    assert_eq!(config.commands, vec![vec!["git", "log", "-1"]]);
    assert_eq!(config.active_command_index, 0);
    assert_eq!(config.active_command_tokens(), vec!["git", "log", "-1"]);
}

#[test]
fn title_reads_back_as_the_command() {
    let command: Vec<String> = vec!["df".into(), "-h".into(), "/tmp".into()];
    let title = command_title(&command);
    assert_eq!(title, "df -h /tmp");
    assert_eq!(parse_command_tokens(&title), command);
}

#[test]
fn commands_json_round_trip() {
    let commands: Vec<Vec<String>> = vec![
        vec!["git".into(), "status".into()],
        vec![],
        vec!["echo".into(), "\"quoted\" é".into()],
    ];
    let json = commands_to_json(&commands).unwrap();
    assert_eq!(json, r#"[["git","status"],[],["echo","\"quoted\" é"]]"#);
    assert_eq!(commands_from_json(&json).unwrap(), commands);
}

#[test]
fn commands_from_json_reads_and_rejects() {
    assert_eq!(commands_from_json(r#"[["a","b"]]"#).unwrap(), vec![vec!["a", "b"]]);
    assert!(matches!(commands_from_json("{\"a\": 1}"), Err(StoreError::InvalidJson(_))));
    assert!(matches!(commands_from_json("not json"), Err(StoreError::InvalidJson(_))));
}
