use chrono::NaiveDate;

use whatawhat::grouping::{clean_time_start, sliding_interval_grouping, SlidingInterval, TimeOption};
use whatawhat::interval::Interval;

fn test_ts(h: u32, m: u32, s: u32) -> i64 {
    NaiveDate::from_ymd_opt(2024, 4, 5)
        .unwrap()
        .and_hms_opt(h, m, s)
        .unwrap()
        .and_utc()
        .timestamp()
}

fn test_time(time: i64, scale: &SlidingInterval, expected: i64) {
    let start = clean_time_start(time, scale, 0);
    assert_eq!(start, expected, "{time} {scale:?} {expected}");
}

#[test]
fn test_clean_time_hours() {
    test_time(
        test_ts(12, 24, 54),
        &SlidingInterval::new_opt(2, TimeOption::Hours).unwrap(),
        test_ts(12, 0, 0),
    );

    test_time(
        test_ts(11, 56, 5),
        &SlidingInterval::new_opt(1, TimeOption::Hours).unwrap(),
        test_ts(11, 0, 0),
    );

    test_time(
        test_ts(16, 0, 0),
        &SlidingInterval::new_opt(1, TimeOption::Hours).unwrap(),
        test_ts(16, 0, 0),
    );

    test_time(
        test_ts(23, 59, 59),
        &SlidingInterval::new_opt(5, TimeOption::Hours).unwrap(),
        test_ts(20, 0, 0),
    );
}

#[test]
fn test_clean_time_minutes() {
    test_time(
        test_ts(4, 24, 54),
        &SlidingInterval::new_opt(15, TimeOption::Minutes).unwrap(),
        test_ts(4, 15, 0),
    );

    test_time(
        test_ts(11, 56, 5),
        &SlidingInterval::new_opt(10, TimeOption::Minutes).unwrap(),
        test_ts(11, 50, 0),
    );

    test_time(
        test_ts(16, 5, 0),
        &SlidingInterval::new_opt(1, TimeOption::Minutes).unwrap(),
        test_ts(16, 5, 0),
    );

    test_time(
        test_ts(23, 59, 59),
        &SlidingInterval::new_opt(5, TimeOption::Minutes).unwrap(),
        test_ts(23, 55, 0),
    );
}

#[test]
fn test_clean_time_seconds() {
    test_time(
        test_ts(4, 24, 4),
        &SlidingInterval::new_opt(5, TimeOption::Seconds).unwrap(),
        test_ts(4, 24, 0),
    );

    test_time(
        test_ts(4, 24, 59),
        &SlidingInterval::new_opt(15, TimeOption::Seconds).unwrap(),
        test_ts(4, 24, 45),
    );

    test_time(
        test_ts(4, 24, 45),
        &SlidingInterval::new_opt(15, TimeOption::Seconds).unwrap(),
        test_ts(4, 24, 45),
    );
}

#[test]
fn test_clean_time_weeks_is_monday_midnight() {
    // 2024-04-05 is a Friday; the week began on Monday 2024-04-01.
    let monday = NaiveDate::from_ymd_opt(2024, 4, 1)
        .unwrap()
        .and_hms_opt(0, 0, 0)
        .unwrap()
        .and_utc()
        .timestamp();
    test_time(
        test_ts(12, 24, 54),
        &SlidingInterval::new_opt(1, TimeOption::Weeks).unwrap(),
        monday,
    );
}

#[test]
fn test_clean_time_with_offset() {
    // Two hours east of UTC, 00:30 local on 2024-04-06 rounds down to
    // local midnight, which is 22:00 UTC on 2024-04-05.
    let t = test_ts(22, 30, 0);
    let scale = SlidingInterval::new_opt(1, TimeOption::Days).unwrap();
    assert_eq!(clean_time_start(t, &scale, 7200), test_ts(22, 0, 0));
}

#[test]
fn test_new_opt_limits() {
    assert!(SlidingInterval::new_opt(23, TimeOption::Hours).is_some());
    assert!(SlidingInterval::new_opt(24, TimeOption::Hours).is_none());
    assert!(SlidingInterval::new_opt(59, TimeOption::Minutes).is_some());
    assert!(SlidingInterval::new_opt(60, TimeOption::Minutes).is_none());
    assert!(SlidingInterval::new_opt(59, TimeOption::Seconds).is_some());
    assert!(SlidingInterval::new_opt(60, TimeOption::Seconds).is_none());
    assert!(SlidingInterval::new_opt(6, TimeOption::Days).is_some());
    assert!(SlidingInterval::new_opt(7, TimeOption::Days).is_none());
    assert!(SlidingInterval::new_opt(1, TimeOption::Weeks).is_some());
    assert!(SlidingInterval::new_opt(2, TimeOption::Weeks).is_none());
    assert!(SlidingInterval::new_opt(0, TimeOption::Seconds).is_none());
}

fn entity(window: &str, process: &str, start: i64, duration: i64) -> Interval {
    Interval {
        window_name: window.to_string(),
        process_name: process.to_string(),
        start,
        duration,
        afk: false,
    }
}

fn vec_duration(values: &[Interval]) -> i64 {
    values.iter().map(|v| v.duration).sum()
}

#[test]
fn sliding_interval_grouping_basic() {
    let mut values = Vec::new();
    let mut current_time = test_ts(12, 0, 0);
    for _ in 0..5 {
        values.push(entity("entity a", "process a", current_time, 5));
        current_time += 5;
        values.push(entity("entity b", "process b", current_time, 5));
        current_time += 5;
    }

    let scale = SlidingInterval::new_opt(30, TimeOption::Seconds).unwrap();
    let grouping = sliding_interval_grouping(values, &scale, 0);

    assert_eq!(grouping.len(), 2);
    assert_eq!(vec_duration(&grouping[0].1), 30);
    assert_eq!(vec_duration(&grouping[1].1), 20);
    let a_time: i64 = grouping[0]
        .1
        .iter()
        .filter(|v| v.process_name == "process a")
        .map(|v| v.duration)
        .sum();
    let b_time: i64 = grouping[0]
        .1
        .iter()
        .filter(|v| v.process_name == "process b")
        .map(|v| v.duration)
        .sum();
    assert_eq!(a_time, 15);
    assert_eq!(b_time, 15);
}

#[test]
fn sliding_grouping_splits_at_bucket_boundary() {
    // One 50-second interval from a clean half-minute boundary is split
    // into a 30-second piece and a 20-second piece.
    let start = test_ts(9, 0, 0);
    let values = vec![entity("w", "p", start, 50)];
    let scale = SlidingInterval::new_opt(30, TimeOption::Seconds).unwrap();
    let grouping = sliding_interval_grouping(values, &scale, 0);
    assert_eq!(grouping.len(), 2);
    assert_eq!(grouping[0].0, start);
    assert_eq!(grouping[1].0, start + 30);
    assert_eq!(vec_duration(&grouping[0].1), 30);
    assert_eq!(vec_duration(&grouping[1].1), 20);
}

#[test]
fn sliding_grouping_clips_buckets_at_local_midnight() {
    // Five-hour buckets starting at 20:00 run 01:00, 06:00, 11:00,
    // 16:00, 21:00 — and the bucket starting at 21:00 would end at 02:00
    // the following day, so it is clipped to midnight instead.
    let start = test_ts(20, 30, 0);
    let values = vec![entity("w", "p", start, 28 * 3600)];
    let scale = SlidingInterval::new_opt(5, TimeOption::Hours).unwrap();
    let grouping = sliding_interval_grouping(values, &scale, 0);
    assert_eq!(grouping[0].0, test_ts(20, 0, 0));
    assert_eq!(grouping[1].0, test_ts(20, 0, 0) + 5 * 3600);
    assert_eq!(grouping[5].0, test_ts(20, 0, 0) + 25 * 3600);  // 21:00 next day
    assert_eq!(grouping[6].0 - grouping[5].0, 3 * 3600);  // clipped at midnight
    let total: i64 = grouping.iter().map(|b| vec_duration(&b.1)).sum();
    assert_eq!(total, 28 * 3600);
}
