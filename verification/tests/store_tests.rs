use chrono::NaiveDate;

use whatawhat::codec::{parse_record_file, serialize_record};
use whatawhat::collapse::collapse_records;
use whatawhat::interval::{Interval, Sample};
use whatawhat::store::{append_to_content, last_line_start};

fn chars(s: &str) -> Vec<char> {
    s.chars().collect()
}

fn text(cs: &[char]) -> String {
    cs.iter().collect()
}

fn test_start_ts() -> i64 {
    NaiveDate::from_ymd_opt(2018, 7, 4)
        .unwrap()
        .and_hms_opt(0, 0, 0)
        .unwrap()
        .and_utc()
        .timestamp()
}

fn record(window: &str, process: &str, moment: i64, afk: bool) -> Sample {
    Sample {
        window_name: window.to_string(),
        process_name: process.to_string(),
        afk,
        timestamp: moment,
    }
}

fn append(content: &str, samples: Vec<Sample>) -> String {
    let plan = append_to_content(&chars(content), samples).expect("batch should be storable");
    text(&plan.content)
}

#[test]
fn test_appender_basic() {
    let t0 = test_start_ts();
    let mut content = String::new();
    content = append(&content, vec![record("initial", "initial", t0, false)]);
    content = append(&content, vec![record("window", "process", t0 + 1, true)]);
    content = append(&content, vec![record("third", "process", t0 + 2, true)]);
    content = append(&content, vec![record("third", "process", t0 + 3, true)]);
    assert_eq!(content.lines().count(), 3);
}

#[test]
fn test_appender_overwrite() {
    // The last line is rewritten in place: a sample continuing the last
    // interval merges into it rather than adding a record.
    let now = test_start_ts() + 1000;
    let previous = [
        Interval {
            window_name: "initial".to_string(),
            process_name: "initial".to_string(),
            start: now - 2,
            duration: 1,
            afk: false,
        },
        Interval {
            window_name: "window".to_string(),
            process_name: "process".to_string(),
            start: now - 2,
            duration: 1,
            afk: true,
        },
    ];
    let mut content = String::new();
    for p in previous.iter() {
        content.push_str(&text(&serialize_record(p)));
        content.push('\n');
    }

    let content = append(&content, vec![record("window", "process", now, true)]);
    assert_eq!(content.lines().count(), 2);
}

#[test]
fn test_record_storage_basic() {
    let t0 = test_start_ts();
    let mut content = String::new();
    content = append(&content, vec![record("test", "test process", t0, false)]);
    content = append(&content, vec![record("test 2", "test process 2", t0, false)]);

    let values = parse_record_file(&chars(&content));
    assert_eq!(
        values,
        vec![
            Interval {
                window_name: "test".to_string(),
                process_name: "test process".to_string(),
                start: t0,
                duration: 0,
                afk: false,
            },
            Interval {
                window_name: "test 2".to_string(),
                process_name: "test process 2".to_string(),
                start: t0,
                duration: 0,
                afk: false,
            },
        ]
    );
}

#[test]
fn test_record_storage_appending() {
    let t0 = test_start_ts();
    let records = [
        record("test", "test process", t0, false),
        record("test 2", "test process 2", t0 + 1, false),
        record("test 2", "test process 2", t0 + 2, false),
    ];
    let mut content = String::new();
    for r in records.iter() {
        content = append(&content, vec![r.clone()]);
    }

    let stored = parse_record_file(&chars(&content));
    let collapsed = collapse_records(None, records.to_vec());
    assert_eq!(stored, collapsed);
}

#[test]
fn rewrite_shrinks_content_when_replacement_is_shorter() {
    // When what replaces the physical last line serializes shorter than
    // the line it overwrites — here a long torn line — the new content is
    // shorter, so a writer must truncate the file to the new length or
    // stale bytes would survive past the end.
    let t0 = test_start_ts();
    let good = append("", vec![record("w", "p", t0, false)]);
    let torn = format!(
        "{good}{{\"window_name\":\"{}",
        "a".repeat(120)
    );
    let plan = append_to_content(&chars(&torn), vec![record("q", "r", t0 + 100, false)]).unwrap();
    assert!(plan.content.len() < torn.chars().count());
    assert_eq!(text(&plan.content).lines().count(), 2);
    assert_eq!(plan.rewrite_from, good.chars().count());

    // A single-line file is rewritten from its beginning.
    let plan2 = append_to_content(&chars(&good), vec![record("q", "r", t0 + 100, false)]).unwrap();
    assert_eq!(plan2.rewrite_from, 0);
}

#[test]
fn append_refuses_unordered_batches() {
    let t0 = test_start_ts();
    let out_of_order = vec![record("w", "p", t0 + 5, false), record("w", "p", t0, false)];
    assert!(append_to_content(&chars(""), out_of_order).is_none());

    let seeded = append("", vec![record("w", "p", t0 + 10, false)]);
    let predates = vec![record("w", "p", t0, false)];
    assert!(append_to_content(&chars(&seeded), predates).is_none());
}

#[test]
fn append_treats_corrupt_last_line_as_no_carried_interval() {
    let t0 = test_start_ts();
    let good = append("", vec![record("w", "p", t0, false)]);
    let torn = format!("{good}{{\"window_name\":\"x");
    let out = append(&torn, vec![record("y", "q", t0 + 100, false)]);
    let values = parse_record_file(&chars(&out));
    assert_eq!(values.len(), 2);
    assert_eq!(values[0].window_name, "w");
    assert_eq!(values[1].window_name, "y");
}

#[test]
fn last_line_start_cases() {
    assert_eq!(last_line_start(&chars("")), 0);
    assert_eq!(last_line_start(&chars("\n")), 0);
    assert_eq!(last_line_start(&chars("abc")), 0);
    assert_eq!(last_line_start(&chars("a\nb")), 2);
    assert_eq!(last_line_start(&chars("a\nb\n")), 2);
    assert_eq!(last_line_start(&chars("one\ntwo\nthree\n")), 8);
}
