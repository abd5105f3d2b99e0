use watchxy::runner::{count_diff, Executor, IterationStart, WaitTime, SUSPENDED_POLL_MILLIS};

#[test]
fn wake_channel_capacity_one_drops_extra_signals() {
    let (wake_tx, _wake_rx) = tokio::sync::mpsc::channel(1);
    wake_tx.try_send(()).unwrap();
    assert!(wake_tx.try_send(()).is_err());
}

#[test]
fn test_count_diff() {
    let current = "hello world!";
    let old = "hello world";

    let result = count_diff(old, current);

    assert_eq!(result, (1, 0))
}

#[test]
fn test_count_delete_diff() {
    let current = "hello world";
    let old = "hello oorld!";

    let result = count_diff(old, current);

    assert_eq!(result, (1, 2))
}

#[test]
fn count_diff_of_equal_texts_is_zero_and_counts_characters() {
    assert_eq!(count_diff("same", "same"), (0, 0));
    assert_eq!(count_diff("", "héllo"), (5, 0));
    assert_eq!(count_diff("héllo", ""), (0, 5));
    let (added, deleted) = count_diff("abc\ndef\n", "abc\nxyz\nmore\n");
    assert_eq!(added as i64 - deleted as i64, 13 - 8);
}

#[test]
fn executor_ids_continue_after_latest_stored_id() {
    let mut executor = Executor::new(Some(7), false, 2000);
    assert_eq!(executor.counter(), 8);
    assert_eq!(executor.begin_iteration(false), IterationStart::Run { id: 9 });
    assert_eq!(
        executor.begin_iteration(true),
        IterationStart::Suspended { wait: WaitTime { secs: 1, nanos: 0 } }
    );
    assert_eq!(executor.begin_iteration(false), IterationStart::Run { id: 11 });
    let mut fresh = Executor::new(None, false, 2000);
    assert_eq!(fresh.begin_iteration(false), IterationStart::Run { id: 1 });
    assert_eq!(SUSPENDED_POLL_MILLIS, 1000);
}

#[test]
fn executor_reports_diff_against_previous_output() {
    let executor = Executor::new(None, false, 2500);
    let first = executor.finish_run(None, b"a\n");
    assert_eq!(first.diff, None);
    assert!(!first.diff_detected);
    assert_eq!(executor.wait_after_run(None, None), Some(WaitTime { secs: 2, nanos: 500_000_000 }));

    let same = executor.finish_run(Some(b"a\n"), b"a\n");
    assert_eq!(same.diff, Some((0, 0)));
    assert!(!same.diff_detected);
    assert_eq!(
        executor.wait_after_run(Some(100), Some(5)),
        Some(WaitTime { secs: 0, nanos: 100_000_000 })
    );

    let changed = executor.finish_run(Some(b"a\n"), b"ab\n");
    assert_eq!(changed.diff, Some((1, 0)));
    assert!(changed.diff_detected);
}

#[test]
fn executor_decodes_output_leniently() {
    let executor = Executor::new(None, false, 1000);
    // An invalid byte becomes one replacement character.
    let outcome = executor.finish_run(Some(b"ok"), b"ok\xff");
    assert_eq!(outcome.diff, Some((1, 0)));
    assert!(outcome.diff_detected);
}

#[test]
fn precise_executor_waits_what_is_left_of_the_interval() {
    let executor = Executor::new(Some(0), true, 2000);
    assert_eq!(
        executor.wait_after_run(None, Some(500_000_000)),
        Some(WaitTime { secs: 1, nanos: 500_000_000 })
    );
    assert_eq!(executor.wait_after_run(None, Some(2_000_000_000)), None);
    assert_eq!(executor.wait_after_run(None, None), None);
    assert_eq!(
        executor.wait_after_run(Some(3000), Some(1)),
        Some(WaitTime { secs: 2, nanos: 999_999_999 })
    );
}
