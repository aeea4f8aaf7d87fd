use chrono::NaiveDate;

use whatawhat::codec::parse_record_file;
use whatawhat::interval::{clamp_all, Interval, Sample};
use whatawhat::paths::to_daemon_path;
use whatawhat::pipeline::{make_sample, rollover_decision, ActiveWindowData, AfkEvaluator, RolloverAction};
use whatawhat::store::append_to_content;
use whatawhat::time::{date_range, day_of_instant, next_day_start};
use whatawhat::timeline::resolve_query_range;
use whatawhat::grouping::{SlidingInterval, TimeOption};

fn chars(s: &str) -> Vec<char> {
    s.chars().collect()
}

fn text(cs: &[char]) -> String {
    cs.iter().collect()
}

fn ts(date: (i32, u32, u32), h: u32, m: u32, s: u32) -> i64 {
    NaiveDate::from_ymd_opt(date.0, date.1, date.2)
        .unwrap()
        .and_hms_opt(h, m, s)
        .unwrap()
        .and_utc()
        .timestamp()
}

fn sample(window: &str, process: &str, moment: i64, afk: bool) -> Sample {
    Sample {
        window_name: window.to_string(),
        process_name: process.to_string(),
        afk,
        timestamp: moment,
    }
}

#[test]
fn afk_evaluator_threshold_is_strict() {
    let evaluator = AfkEvaluator::from_seconds(120);
    assert!(!evaluator.is_afk(120_000));
    assert!(evaluator.is_afk(120_001));
    assert!(!evaluator.is_afk(0));
}

#[test]
fn make_sample_carries_probe_data() {
    let evaluator = AfkEvaluator::from_seconds(120);
    let data = ActiveWindowData {
        window_title: "doc - editor".to_string(),
        process_name: "/usr/bin/editor".to_string(),
    };
    let s = make_sample(data, &evaluator, 200_000, 1000);
    assert_eq!(s.window_name, "doc - editor");
    assert_eq!(s.process_name, "/usr/bin/editor");
    assert!(s.afk);
    assert_eq!(s.timestamp, 1000);
}

#[test]
fn rollover_keeps_today_and_rotates_on_day_change() {
    assert_eq!(rollover_decision(None, 19000), RolloverAction::Open);
    assert_eq!(rollover_decision(Some(19000), 19000), RolloverAction::Reuse);
    assert_eq!(rollover_decision(Some(18999), 19000), RolloverAction::FlushThenOpen);
}

#[test]
fn day_rollover_routes_samples_to_separate_files() {
    // Three same-state samples one second apart land in day one's file as
    // a single two-second interval; the next day's sample opens a fresh
    // file holding a single zero-length interval.
    let d1 = (2024, 4, 5);
    let d2 = (2024, 4, 6);
    let t0 = ts(d1, 23, 59, 57);

    let mut day1 = String::new();
    let mut day2 = String::new();
    let mut current_day: Option<i64> = None;
    for s in [
        sample("W", "A", t0, false),
        sample("W", "A", t0 + 1, false),
        sample("W", "A", t0 + 2, false),
        sample("V", "B", ts(d2, 0, 0, 0), false),
    ] {
        let today = day_of_instant(s.timestamp);
        match rollover_decision(current_day, today) {
            RolloverAction::Reuse => {}
            RolloverAction::FlushThenOpen | RolloverAction::Open => current_day = Some(today),
        }
        let file = if current_day == Some(day_of_instant(ts(d1, 0, 0, 0))) {
            &mut day1
        } else {
            &mut day2
        };
        let plan = append_to_content(&chars(file), vec![s]).unwrap();
        *file = text(&plan.content);
    }

    let one = parse_record_file(&chars(&day1));
    assert_eq!(one.len(), 1);
    assert_eq!(one[0].process_name, "A");
    assert_eq!(one[0].window_name, "W");
    assert_eq!(one[0].duration, 2);

    let two = parse_record_file(&chars(&day2));
    assert_eq!(two.len(), 1);
    assert_eq!(two[0].process_name, "B");
    assert_eq!(two[0].window_name, "V");
    assert_eq!(two[0].duration, 0);
}

#[test]
fn date_range_is_inclusive() {
    assert_eq!(date_range(10, 12), vec![10, 11, 12]);
    assert_eq!(date_range(10, 10), vec![10]);
    assert_eq!(date_range(12, 10), Vec::<i64>::new());
}

#[test]
fn clamp_all_keeps_only_the_requested_range() {
    let make = |start: i64, duration: i64| Interval {
        window_name: "w".to_string(),
        process_name: "p".to_string(),
        start,
        duration,
        afk: false,
    };
    let intervals = vec![make(0, 10), make(10, 10), make(20, 10)];
    let clamped = clamp_all(intervals, 5, 25);
    assert_eq!(clamped.len(), 3);
    assert_eq!((clamped[0].start, clamped[0].duration), (5, 5));
    assert_eq!((clamped[1].start, clamped[1].duration), (10, 10));
    assert_eq!((clamped[2].start, clamped[2].duration), (20, 5));

    let far = vec![make(100, 10)];
    assert_eq!(clamp_all(far, 5, 25).len(), 0);
}

#[test]
fn next_day_start_is_local_midnight() {
    let t = ts((2024, 4, 5), 13, 30, 0);
    assert_eq!(next_day_start(t, 0), ts((2024, 4, 6), 0, 0, 0));
    // two hours east: the local day ends two hours earlier in UTC
    assert_eq!(next_day_start(t, 7200), ts((2024, 4, 5), 22, 0, 0));
}

#[test]
fn resolve_query_range_defaults_and_day_widening() {
    let now = ts((2024, 4, 5), 13, 30, 0);
    let scale = SlidingInterval::new_opt(15, TimeOption::Minutes).unwrap();
    let r = resolve_query_range(None, None, now, &scale, false, 0);
    assert_eq!(r.start, now - 15 * 60 * 10);
    assert_eq!(r.end, now);
    assert!(r.show_time);

    let days = SlidingInterval::new_opt(1, TimeOption::Days).unwrap();
    let r2 = resolve_query_range(Some(now), Some(now), now, &days, false, 0);
    assert_eq!(r2.start, ts((2024, 4, 5), 0, 0, 0));
    assert_eq!(r2.end, ts((2024, 4, 6), 0, 0, 0));
    assert!(!r2.show_time);

    let r3 = resolve_query_range(Some(now), Some(now), now, &scale, true, 0);
    assert_eq!(r3.start, ts((2024, 4, 5), 0, 0, 0));
    assert_eq!(r3.end, ts((2024, 4, 6), 0, 0, 0));
    assert!(r3.show_time);
}

#[test]
fn to_daemon_path_replaces_final_component() {
    assert_eq!(
        to_daemon_path("/usr/local/bin/whatawhat".to_string()),
        "/usr/local/bin/whatawhat-daemon"
    );
    assert_eq!(to_daemon_path("whatawhat".to_string()), "whatawhat-daemon");
}
