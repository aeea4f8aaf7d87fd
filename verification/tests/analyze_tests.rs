use whatawhat::analyze::{analyze_processes, analyze_windows, clean_process_name, sum_durations};
use whatawhat::interval::Interval;

fn interval(window: &str, process: &str, start: i64, duration: i64, afk: bool) -> Interval {
    Interval {
        window_name: window.to_string(),
        process_name: process.to_string(),
        start,
        duration,
        afk,
    }
}

#[test]
fn clean_process_name_takes_final_component() {
    assert_eq!(clean_process_name("/usr/bin/editor"), "editor");
    assert_eq!(clean_process_name("editor"), "editor");
    assert_eq!(clean_process_name(""), "");
    assert_eq!(clean_process_name("/one/two/three/tool"), "tool");
}

#[test]
fn percentage_filter_is_strict() {
    // Total elapsed 100 s with a 10 % floor: an entry of exactly 10 s is
    // excluded, one of 11 s is included.
    let intervals = vec![
        interval("w1", "/bin/ten", 0, 10, false),
        interval("w2", "/bin/eleven", 10, 11, false),
        interval("w3", "/bin/rest", 21, 79, false),
    ];
    assert_eq!(sum_durations(&intervals), 100);
    let (entries, total) = analyze_processes(intervals, 10, false);
    assert_eq!(total, 100);
    let names: Vec<&str> = entries.iter().map(|e| e.process_name.as_str()).collect();
    assert!(names.contains(&"/bin/eleven"));
    assert!(names.contains(&"/bin/rest"));
    assert!(!names.contains(&"/bin/ten"));
}

#[test]
fn analyze_processes_groups_by_final_path_component() {
    let intervals = vec![
        interval("w1", "/usr/bin/editor", 0, 10, false),
        interval("w2", "/opt/other/editor", 10, 5, false),
        interval("w3", "/bin/shell", 15, 3, false),
    ];
    let (entries, total) = analyze_processes(intervals, 0, false);
    assert_eq!(total, 18);
    assert_eq!(entries.len(), 2);
    // grouped under the shared final component, displaying the first
    // occurrence's full path, sorted by descending duration
    assert_eq!(entries[0].process_name, "/usr/bin/editor");
    assert_eq!(entries[0].duration, 15);
    assert_eq!(entries[1].process_name, "/bin/shell");
    assert_eq!(entries[1].duration, 3);
}

#[test]
fn analyze_processes_folds_afk_into_inactive() {
    let intervals = vec![
        interval("w1", "/bin/tool", 0, 30, false),
        interval("w2", "/bin/tool", 30, 20, true),
        interval("w3", "/bin/tool", 50, 10, false),
    ];
    let (entries, total) = analyze_processes(intervals, 0, false);
    assert_eq!(total, 60);
    assert_eq!(entries.len(), 2);
    assert_eq!(entries[0].process_name, "/bin/tool");
    assert_eq!(entries[0].duration, 40);
    assert_eq!(entries[1].process_name, "Inactive");
    assert_eq!(entries[1].duration, 20);
}

#[test]
fn analyze_processes_includes_afk_when_asked() {
    let intervals = vec![
        interval("w1", "/bin/tool", 0, 30, false),
        interval("w2", "/bin/tool", 30, 20, true),
    ];
    let (entries, total) = analyze_processes(intervals, 0, true);
    assert_eq!(total, 50);
    assert_eq!(entries.len(), 1);
    assert_eq!(entries[0].duration, 50);
}

#[test]
fn analyze_windows_keys_by_process_and_window() {
    let intervals = vec![
        interval("alpha", "/bin/tool", 0, 10, false),
        interval("beta", "/bin/tool", 10, 25, false),
        interval("alpha", "/bin/tool", 35, 5, false),
    ];
    let (entries, total) = analyze_windows(intervals, 0, false);
    assert_eq!(total, 40);
    assert_eq!(entries.len(), 2);
    assert_eq!(entries[0].window_name, "beta");
    assert_eq!(entries[0].duration, 25);
    assert_eq!(entries[1].window_name, "alpha");
    assert_eq!(entries[1].duration, 15);
}

#[test]
fn analyze_windows_folds_afk_into_inactive() {
    let intervals = vec![
        interval("alpha", "/bin/tool", 0, 10, false),
        interval("beta", "/bin/tool", 10, 90, true),
    ];
    let (entries, total) = analyze_windows(intervals, 5, false);
    assert_eq!(total, 100);
    assert_eq!(entries.len(), 2);
    assert_eq!(entries[0].process_name, "Inactive");
    assert_eq!(entries[0].window_name, "");
    assert_eq!(entries[0].duration, 90);
    assert_eq!(entries[1].duration, 10);
}

#[test]
fn analyze_results_are_sorted_descending() {
    let intervals = vec![
        interval("w", "/a", 0, 5, false),
        interval("w", "/b", 5, 50, false),
        interval("w", "/c", 55, 20, false),
    ];
    let (entries, _) = analyze_processes(intervals, 0, false);
    let durations: Vec<i64> = entries.iter().map(|e| e.duration).collect();
    assert_eq!(durations, vec![50, 20, 5]);
}
