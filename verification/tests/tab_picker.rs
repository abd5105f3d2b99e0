use watchxy::store::RuntimeConfig;
use watchxy::tab_picker::{command_title, filter_command_indices};

fn sample_config() -> RuntimeConfig {
    RuntimeConfig {
        interval: 2000,
        command: "git status".to_string(),
        commands: vec![
            vec!["git".into(), "status".into()],
            vec!["df".into(), "-h".into()],
            vec!["uptime".into()],
        ],
        active_command_index: 0,
    }
}

#[test]
fn empty_query_lists_all_commands() {
    let config = sample_config();
    assert_eq!(filter_command_indices(&config, ""), vec![0, 1, 2]);
}

#[test]
fn filters_by_substring_case_insensitive() {
    let config = sample_config();
    assert_eq!(filter_command_indices(&config, "git"), vec![0]);
    assert_eq!(filter_command_indices(&config, "DF"), vec![1]);
}

#[test]
fn no_match_returns_empty() {
    let config = sample_config();
    assert!(filter_command_indices(&config, "zzz").is_empty());
}

#[test]
fn blank_query_lists_all_commands_and_query_is_trimmed() {
    let config = sample_config();
    assert_eq!(filter_command_indices(&config, "  \t "), vec![0, 1, 2]);
    assert_eq!(filter_command_indices(&config, "  UP "), vec![2]);
    // The title joins words with a space, so a query may span words.
    assert_eq!(filter_command_indices(&config, "t s"), vec![0]);
    assert_eq!(filter_command_indices(&config, "t"), vec![0, 2]);
}

#[test]
fn command_title_joins_words_with_spaces() {
    assert_eq!(command_title(&["git".to_string(), "status".to_string()]), "git status");
    assert_eq!(command_title(&[]), "");
    assert_eq!(command_title(&["one".to_string()]), "one");
}

#[test]
fn narrowing_the_query_keeps_a_subsequence_of_the_list() {
    let config = sample_config();
    let wide = filter_command_indices(&config, "T");
    let narrow = filter_command_indices(&config, " tat ");
    assert_eq!(wide, vec![0, 2]);
    assert_eq!(narrow, vec![0]);
    assert!(narrow.iter().all(|i| wide.contains(i)));
    assert_eq!(filter_command_indices(&config, " "), vec![0, 1, 2]);
}
