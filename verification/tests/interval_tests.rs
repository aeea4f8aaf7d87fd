use whatawhat::grouping::{PrintInterval, TimeOption};
use whatawhat::interval::Interval;

fn interval(start: i64, duration: i64) -> Interval {
    Interval {
        window_name: "w".to_string(),
        process_name: "/bin/p".to_string(),
        start,
        duration,
        afk: false,
    }
}

#[test]
fn split_by_partitions_at_an_inner_instant() {
    let (before, after) = interval(100, 50).split_by(120);
    let before = before.unwrap();
    let after = after.unwrap();
    assert_eq!((before.start, before.duration), (100, 20));
    assert_eq!((after.start, after.duration), (120, 30));
    assert_eq!(before.duration + after.duration, 50);
    assert_eq!(before.start + before.duration, after.start);
    assert_eq!(before.window_name, "w");
    assert_eq!(after.process_name, "/bin/p");
}

#[test]
fn split_by_outside_returns_the_interval_whole() {
    let (before, after) = interval(100, 50).split_by(90);
    assert!(before.is_none());
    assert_eq!(after.unwrap(), interval(100, 50));

    let (before, after) = interval(100, 50).split_by(150);
    assert_eq!(before.unwrap(), interval(100, 50));
    assert!(after.is_none());
}

#[test]
fn clamp_outside_is_none_and_inside_is_identity() {
    assert!(interval(100, 50).clamp(0, 90).is_none());
    assert!(interval(100, 50).clamp(200, 300).is_none());
    assert_eq!(interval(100, 50).clamp(50, 200).unwrap(), interval(100, 50));
    assert_eq!(interval(100, 50).clamp(100, 150).unwrap(), interval(100, 50));
}

#[test]
fn clamp_straddling_keeps_the_overlap() {
    let clamped = interval(100, 50).clamp(120, 140).unwrap();
    assert_eq!((clamped.start, clamped.duration), (120, 20));
}

#[test]
fn clamp_at_a_shared_boundary_leaves_a_zero_length_sliver() {
    // an interval starting exactly where the range ends survives as a
    // zero-length sliver rather than disappearing
    let clamped = interval(100, 50).clamp(0, 100).unwrap();
    assert_eq!((clamped.start, clamped.duration), (100, 0));
}

#[test]
fn set_end_extends_duration() {
    let mut iv = interval(100, 5);
    iv.set_end(130);
    assert_eq!(iv.duration, 30);
}

#[test]
fn print_interval_validates_through_the_caps() {
    let p = PrintInterval { duration: 15, option: TimeOption::Minutes };
    let scale = p.to_interval().unwrap();
    assert_eq!(scale.duration(), 15);
    assert_eq!(*scale.time(), TimeOption::Minutes);
    let bad = PrintInterval { duration: 90, option: TimeOption::Minutes };
    assert!(bad.to_interval().is_none());
}
