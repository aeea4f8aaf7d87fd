use whatawhat::codec::{parse_record, parse_record_file, serialize_record};
use whatawhat::interval::Interval;

fn chars(s: &str) -> Vec<char> {
    s.chars().collect()
}

fn text(cs: &[char]) -> String {
    cs.iter().collect()
}

fn interval(window: &str, process: &str, start: i64, duration: i64, afk: bool) -> Interval {
    Interval {
        window_name: window.to_string(),
        process_name: process.to_string(),
        start,
        duration,
        afk,
    }
}

#[test]
fn serializes_canonical_line() {
    let line = serialize_record(&interval("win", "/usr/bin/proc", 1234, 5, false));
    assert_eq!(
        text(&line),
        "{\"window_name\":\"win\",\"process_name\":\"/usr/bin/proc\",\"start\":1234,\"duration\":5,\"afk\":false}"
    );
}

#[test]
fn serialized_line_is_json_serde_can_read() {
    let line = serialize_record(&interval("a \"b\" \\ c\nd", "/p", -3, 0, true));
    let v: serde_json::Value = serde_json::from_str(&text(&line)).unwrap();
    assert_eq!(v["window_name"], "a \"b\" \\ c\nd");
    assert_eq!(v["process_name"], "/p");
    assert_eq!(v["start"], -3);
    assert_eq!(v["duration"], 0);
    assert_eq!(v["afk"], true);
}

#[test]
fn parse_inverts_serialize() {
    let cases = vec![
        interval("win", "/usr/bin/proc", 1234, 5, false),
        interval("quote \" backslash \\ slash /", "/p", -7200, 3600, true),
        interval("tab\tnewline\ncr\rbell\u{7}", "/a/b", 0, 0, false),
        interval("", "", 8_000_000_000_000, 0, true),
        interval("unicode \u{e9}\u{4e16}\u{754c}", "/bin/x", -8_000_000_000_000, 1, false),
    ];
    for case in cases {
        let line = serialize_record(&case);
        let back = parse_record(&line).unwrap();
        assert_eq!(back, case);
    }
}

#[test]
fn parses_line_without_afk_field_as_not_afk() {
    let line = chars("{\"window_name\":\"w\",\"process_name\":\"p\",\"start\":10,\"duration\":2}");
    let parsed = parse_record(&line).unwrap();
    assert_eq!(parsed, interval("w", "p", 10, 2, false));
}

#[test]
fn rejects_corrupt_lines() {
    let bad = vec![
        "",
        "{",
        "{\"window_name\":\"w\"",
        "{\"window_name\":\"w\",\"process_name\":\"p\",\"start\":x,\"duration\":2}",
        "{\"window_name\":\"w\",\"process_name\":\"p\",\"start\":10,\"duration\":-2}",
        "{\"window_name\":\"w\",\"process_name\":\"p\",\"start\":10,\"duration\":2} trailing",
        "{\"window_name\":\"w\",\"process_name\":\"p\",\"start\":99999999999999999999,\"duration\":2}",
        "not json at all",
    ];
    for case in bad {
        assert!(parse_record(&chars(case)).is_none(), "{case}");
    }
}

#[test]
fn reads_all_well_formed_lines_of_a_file() {
    let a = text(&serialize_record(&interval("a", "/pa", 0, 1, false)));
    let b = text(&serialize_record(&interval("b", "/pb", 5, 2, true)));
    let file = format!("{a}\n{b}\n");
    let records = parse_record_file(&chars(&file));
    assert_eq!(records.len(), 2);
    assert_eq!(records[0], interval("a", "/pa", 0, 1, false));
    assert_eq!(records[1], interval("b", "/pb", 5, 2, true));
}

#[test]
fn corrupted_trailing_line_does_not_lose_the_prefix() {
    // A torn trailing write after an unclean shutdown must not make the
    // day's history unreadable: every earlier record is still returned.
    let a = text(&serialize_record(&interval("a", "/pa", 0, 1, false)));
    let b = text(&serialize_record(&interval("b", "/pb", 5, 2, true)));
    let torn = "{\"window_name\":\"c\",\"process_na";
    let file = format!("{a}\n{b}\n{torn}");
    let records = parse_record_file(&chars(&file));
    assert_eq!(records.len(), 2);
    assert_eq!(records[0], interval("a", "/pa", 0, 1, false));
    assert_eq!(records[1], interval("b", "/pb", 5, 2, true));
}

#[test]
fn reads_lines_with_crlf_endings() {
    let a = text(&serialize_record(&interval("a", "/pa", 0, 1, false)));
    let file = format!("{a}\r\n");
    let records = parse_record_file(&chars(&file));
    assert_eq!(records.len(), 1);
}
