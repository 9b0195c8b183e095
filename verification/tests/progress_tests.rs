use puremagic::progress::ProgressTracker;

#[test]
fn progress_new_starts_empty() {
    let t = ProgressTracker::new("stage", 10);
    assert_eq!(t.label, "stage");
    assert_eq!((t.total, t.count, t.last_report_millis), (10, 0, 0));
}

#[test]
fn progress_add_reports_throttled_percentages() {
    let mut t = ProgressTracker::new("stage", 8);
    assert_eq!(t.add(2, 500), None);
    assert_eq!(t.add(2, 1000), Some(50));
    assert_eq!(t.add(1, 1500), None);
    assert_eq!(t.add(1, 2000), Some(75));
    assert_eq!(t.count, 6);
}

#[test]
fn progress_count_is_capped_at_total() {
    let mut t = ProgressTracker::new("stage", 4);
    assert_eq!(t.add(10, 5000), Some(100));
    assert_eq!(t.count, 10);
}

#[test]
fn progress_zero_total_or_zero_units_do_nothing() {
    let mut t = ProgressTracker::new("empty", 0);
    assert_eq!(t.add(3, 5000), None);
    assert_eq!(t.count, 0);
    assert_eq!(t.finish(), None);
    let mut t = ProgressTracker::new("stage", 5);
    assert_eq!(t.add(0, 5000), None);
    assert_eq!(t.last_report_millis, 0);
}

#[test]
fn progress_finish_always_shows_full() {
    let t = ProgressTracker::new("stage", 7);
    assert_eq!(t.finish(), Some(100));
}
