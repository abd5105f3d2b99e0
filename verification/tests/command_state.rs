use watchxy::command_state::{
    coalesce_pending_wake, is_command_runnable, merge_wake, resolved_active_command_tokens,
    resolved_all_commands, WakeRequest,
};
use watchxy::store::RuntimeConfig;

fn config_with_commands(commands: Vec<Vec<String>>, active: u32, legacy: &str) -> RuntimeConfig {
    RuntimeConfig {
        interval: 2000,
        command: legacy.to_string(),
        commands,
        active_command_index: active,
    }
}

#[test]
fn resolved_active_falls_back_to_legacy_command_string() {
    let config = config_with_commands(vec![], 0, "echo hello");
    assert_eq!(resolved_active_command_tokens(&config), vec!["echo", "hello"]);
}

#[test]
fn resolved_active_uses_indexed_commands_when_present() {
    let config = config_with_commands(
        vec![
            vec!["git".into(), "status".into()],
            vec!["df".into(), "-h".into()],
        ],
        1,
        "git status",
    );
    assert_eq!(resolved_active_command_tokens(&config), vec!["df", "-h"]);
}

#[test]
fn resolved_all_returns_every_non_empty_command() {
    let config = config_with_commands(
        vec![vec!["true".into()], vec![], vec!["false".into()]],
        0,
        "true",
    );
    assert_eq!(
        resolved_all_commands(&config),
        vec![(0, vec!["true".to_string()]), (2, vec!["false".to_string()])]
    );
}

#[test]
fn merge_wake_all_wins_over_active() {
    assert_eq!(merge_wake(Some(WakeRequest::Active), WakeRequest::All), WakeRequest::All);
    assert_eq!(merge_wake(Some(WakeRequest::All), WakeRequest::Active), WakeRequest::All);
    assert_eq!(merge_wake(None, WakeRequest::Active), WakeRequest::Active);
}

#[test]
fn is_command_runnable_rejects_empty() {
    assert!(!is_command_runnable(&[]));
    assert!(is_command_runnable(&["echo".into()]));
}

#[test]
fn resolved_active_falls_back_to_first_command_when_index_and_legacy_are_empty() {
    let config = config_with_commands(vec![vec!["uptime".into()], vec![]], 1, "   ");
    assert_eq!(resolved_active_command_tokens(&config), vec!["uptime"]);
    assert_eq!(config.active_command_tokens(), vec!["uptime"]);
}

#[test]
fn resolved_active_is_empty_when_nothing_is_configured() {
    let config = config_with_commands(vec![vec![]], 3, "");
    assert!(resolved_active_command_tokens(&config).is_empty());
}

#[test]
fn resolved_all_without_list_runs_the_legacy_command_under_the_active_index() {
    let config = config_with_commands(vec![], 4, "ls  -la");
    assert_eq!(
        resolved_all_commands(&config),
        vec![(4, vec!["ls".to_string(), "-la".to_string()])]
    );
    let empty = config_with_commands(vec![], 0, "");
    assert!(resolved_all_commands(&empty).is_empty());
}

#[test]
fn merge_wake_active_with_active_stays_active() {
    assert_eq!(merge_wake(Some(WakeRequest::Active), WakeRequest::Active), WakeRequest::Active);
    assert_eq!(merge_wake(None, WakeRequest::All), WakeRequest::All);
}

#[test]
fn coalesce_pending_wake_merges_everything_waiting() {
    let (tx, mut rx) = tokio::sync::mpsc::channel(8);
    tx.try_send(WakeRequest::Active).unwrap();
    tx.try_send(WakeRequest::All).unwrap();
    tx.try_send(WakeRequest::Active).unwrap();
    assert_eq!(coalesce_pending_wake(None, &mut rx), Some(WakeRequest::All));
    // The channel has been drained.
    assert!(rx.try_recv().is_err());
}

#[test]
fn coalesce_pending_wake_keeps_initial_when_nothing_waits() {
    let (_tx, mut rx) = tokio::sync::mpsc::channel::<WakeRequest>(1);
    assert_eq!(coalesce_pending_wake(None, &mut rx), None);
    assert_eq!(
        coalesce_pending_wake(Some(WakeRequest::Active), &mut rx),
        Some(WakeRequest::Active)
    );
}

#[test]
fn coalesce_pending_wake_of_actives_is_active() {
    let (tx, mut rx) = tokio::sync::mpsc::channel(4);
    tx.try_send(WakeRequest::Active).unwrap();
    tx.try_send(WakeRequest::Active).unwrap();
    assert_eq!(coalesce_pending_wake(None, &mut rx), Some(WakeRequest::Active));
    tx.try_send(WakeRequest::Active).unwrap();
    assert_eq!(
        coalesce_pending_wake(Some(WakeRequest::All), &mut rx),
        Some(WakeRequest::All)
    );
}
