use chrono::NaiveDate;

use whatawhat::collapse::collapse_records;
use whatawhat::interval::{Interval, Sample};

fn test_start_ts() -> i64 {
    NaiveDate::from_ymd_opt(2018, 7, 4)
        .unwrap()
        .and_hms_opt(0, 0, 0)
        .unwrap()
        .and_utc()
        .timestamp()
}

fn record(window: &str, process: &str, moment: i64) -> Sample {
    Sample {
        window_name: window.to_string(),
        process_name: process.to_string(),
        afk: false,
        timestamp: moment,
    }
}

fn interval_of(window: &str, process: &str, start: i64, duration: i64) -> Interval {
    Interval {
        window_name: window.to_string(),
        process_name: process.to_string(),
        start,
        duration,
        afk: false,
    }
}

#[test]
fn test_record_collapsing_basic() {
    let t0 = test_start_ts();
    let records = vec![
        record("test", "test process", t0),
        record("test", "test process", t0 + 1),
        record("test 2", "test process 2", t0 + 5),
    ];
    let values = collapse_records(None, records);

    assert_eq!(values.len(), 2);
    assert_eq!(values[0], interval_of("test", "test process", t0, 1));
    assert_eq!(values[1], interval_of("test 2", "test process 2", t0 + 5, 0));
}

#[test]
fn test_record_collapsing_long_time_between_cutooff() {
    let t0 = test_start_ts();
    let interval = interval_of("test", "test process", t0, 10);

    let records = vec![record("test", "test process", t0 + 15)];

    let values = collapse_records(Some(interval), records);

    assert_eq!(values[0], interval_of("test", "test process", t0, 10));
    assert_eq!(values[1], interval_of("test", "test process", t0 + 15, 0));
}

#[test]
fn test_record_collapsing_long_time_between_different_processes_cutooff() {
    let t0 = test_start_ts();
    let records = vec![
        record("previous", "previous process", t0),
        record("test 2", "test process 2", t0 + 3),
        record("test 2", "test process 2", t0 + 4),
    ];
    let values = collapse_records(None, records);

    assert_eq!(values.len(), 2);
    assert_eq!(values[0], interval_of("previous", "previous process", t0, 0));
    assert_eq!(values[1], interval_of("test 2", "test process 2", t0 + 3, 1));
}

#[test]
fn collapse_two_samples_one_second_apart() {
    // Two same-state samples within the merge gap become one interval
    // spanning first to second timestamp.
    let t0 = test_start_ts();
    let records = vec![record("w", "p", t0), record("w", "p", t0 + 1)];
    let values = collapse_records(None, records);
    assert_eq!(values, vec![interval_of("w", "p", t0, 1)]);
}

#[test]
fn collapse_bridges_window_switch_without_gap() {
    // A switch of focus within the merge gap anchors the new interval at
    // the previous interval's end, so no time is lost.
    let t0 = test_start_ts();
    let records = vec![
        record("a", "pa", t0),
        record("a", "pa", t0 + 1),
        record("b", "pb", t0 + 2),
    ];
    let values = collapse_records(None, records);
    assert_eq!(values.len(), 2);
    assert_eq!(values[0], interval_of("a", "pa", t0, 1));
    assert_eq!(values[1].start, t0 + 1);
    assert_eq!(values[1].window_name, "b");
}

#[test]
fn collapse_seeded_with_carried_interval_adds_durations() {
    // Appending a batch to a seeded store continues the carried interval:
    // the total equals the carried duration plus the batch's own span.
    let t0 = test_start_ts();
    let carried = interval_of("w", "p", t0, 5);
    let records = vec![record("w", "p", t0 + 5), record("w", "p", t0 + 6)];
    let fresh = collapse_records(None, records.clone());
    let seeded = collapse_records(Some(carried), records);
    assert_eq!(fresh.len(), 1);
    assert_eq!(seeded.len(), 1);
    assert_eq!(seeded[0].duration, 5 + fresh[0].duration);
    assert_eq!(seeded[0].duration, 6);
}

#[test]
fn collapse_does_not_merge_afk_change() {
    let t0 = test_start_ts();
    let mut first = record("w", "p", t0);
    first.afk = true;
    let records = vec![first, record("w", "p", t0 + 1)];
    let values = collapse_records(None, records);
    assert_eq!(values.len(), 2);
    assert!(values[0].afk);
    assert!(!values[1].afk);
}
