use std::time::{Duration, Instant};
use velox_mpc::profiler::{key_of, profiling_enabled, Agg, PhaseProfiler};

fn profiler() -> PhaseProfiler {
    PhaseProfiler::new("test".to_string(), None)
}

fn enabled_profiler() -> PhaseProfiler {
    let mut p = profiler();
    p.enabled = true;
    p
}

fn busy_wait(d: Duration) {
    let begin = Instant::now();
    while begin.elapsed() < d {}
}

#[test]
fn disabled_by_default_is_noop() {
    let mut p = profiler();
    assert!(!p.enabled());
    p.start("CTRBC", 1, 0);
    p.stop("CTRBC", 1, 0);
    p.mark("phase");
    assert!(p.agg.is_empty());
    assert!(p.marks.is_empty());
    assert!(p.spans_open.is_empty());
    assert!(p.report().is_none());
    assert!(p.report_throttled().is_none());
}

#[test]
fn spans_aggregate_per_label() {
    let mut p = enabled_profiler();
    for i in 0..3 {
        p.start("CTRBC", i, 0);
        busy_wait(Duration::from_millis(2));
        p.stop("CTRBC", i, 0);
    }
    let a = p.agg.get("CTRBC").expect("label recorded");
    assert_eq!(a.count, 3);
    assert!(a.max >= a.min);
    assert!(a.total >= a.max);
    assert!(a.min >= 2_000_000);
}

#[test]
fn unclosed_and_mismatched_spans_are_ignored() {
    let mut p = enabled_profiler();
    p.start("RA", 7, 2);
    // stop with a different key -> no aggregation, open span stays.
    p.stop("RA", 7, 3);
    assert!(p.agg.get("RA").is_none());
    assert_eq!(p.spans_open.len(), 1);
}

#[test]
fn marks_record_first_crossing_only() {
    let mut p = enabled_profiler();
    p.mark("mixing");
    p.mark("mixing"); // repeat ignored (per-level loops are safe)
    p.mark("verification");
    assert_eq!(p.marks.len(), 2);
    assert_eq!(p.marks[0].0, "mixing");
    assert_eq!(p.marks[1].0, "verification");
    // report must not panic with spans + marks present.
    p.start("AVID", 1, 0);
    p.stop("AVID", 1, 0);
    p.report();
}

#[test]
fn aggregates_hold_count_total_and_extremes() {
    let mut p = enabled_profiler();
    p.start_at("RA", 1, 0, 100);
    p.start_at("RA", 2, 0, 110);
    p.stop_at("RA", 2, 0, 150);
    p.stop_at("RA", 1, 0, 110);
    assert_eq!(p.agg.get("RA"), Some(Agg { count: 2, total: 50, min: 10, max: 40 }));
    assert!(p.spans_open.is_empty());
    // A clock that went backwards counts as no time.
    p.start_at("RA", 3, 0, 100);
    p.stop_at("RA", 3, 0, 90);
    assert_eq!(p.agg.get("RA"), Some(Agg { count: 3, total: 50, min: 0, max: 40 }));
}

#[test]
fn restarted_span_replaces_the_open_one() {
    let mut p = enabled_profiler();
    p.start_at("RA", 1, 0, 100);
    p.start_at("RA", 1, 0, 200);
    assert_eq!(p.spans_open.len(), 1);
    p.stop_at("RA", 1, 0, 207);
    assert_eq!(p.agg.get("RA"), Some(Agg { count: 1, total: 7, min: 7, max: 7 }));
    p.stop_at("RA", 1, 0, 300);
    assert_eq!(p.agg.get("RA"), Some(Agg { count: 1, total: 7, min: 7, max: 7 }));
}

#[test]
fn span_keys_keep_instances_and_labels_apart() {
    let mut p = enabled_profiler();
    p.start_at("RA", 1, 0, 0);
    p.start_at("RA", 0, 1, 0);
    p.start_at("CTRBC", 1, 0, 0);
    assert_eq!(p.spans_open.len(), 3);
    p.stop_at("RA", 0, 1, 5);
    assert_eq!(p.spans_open.get("RA", 1 << 20), Some(0));
    assert_eq!(p.spans_open.get("RA", 1), None);
    assert!(p.agg.get("CTRBC").is_none());
}

#[test]
fn report_sorts_rows_and_measures_gaps() {
    let mut p = enabled_profiler();
    for (label, d) in [("a", 5u128), ("b", 50), ("c", 20)] {
        p.start_at(label, 0, 0, 0);
        p.stop_at(label, 0, 0, d);
    }
    let r = p.report().unwrap();
    let labels: Vec<&str> = r.rows.iter().map(|row| row.label).collect();
    assert_eq!(labels, vec!["b", "c", "a"]);
    assert_eq!(r.rows[0].total, 50);
    assert_eq!(r.rows[0].min, 50);
    assert_eq!(r.rows[0].count, 1);
    assert!(r.timeline.is_empty());
    assert_eq!(r.total, None);
    p.mark_at("one", 10);
    assert_eq!(p.report().unwrap().total, None);
    p.mark_at("two", 25);
    p.mark_at("three", 100);
    p.mark_at("two", 500);
    let r = p.report().unwrap();
    assert_eq!(r.timeline, vec![("one", 15), ("two", 75)]);
    assert_eq!(r.total, Some(90));
}

#[test]
fn reports_are_throttled_to_one_a_second() {
    let mut p = enabled_profiler();
    assert!(p.report_throttled_at(5).is_some());
    assert!(p.report_throttled_at(999_999_999).is_none());
    assert!(p.report_throttled_at(1_000_000_004).is_none());
    assert!(p.report_throttled_at(1_000_000_005).is_some());
    assert!(p.report_throttled_at(1_000_000_006).is_none());
    let mut q = enabled_profiler();
    assert!(q.report_throttled().is_some());
    assert!(q.report_throttled().is_none());
}

#[test]
fn variable_must_be_set_and_not_empty() {
    assert!(!profiling_enabled(None));
    assert!(!profiling_enabled(Some("")));
    assert!(profiling_enabled(Some("1")));
    assert!(profiling_enabled(Some("0")));
    assert!(!PhaseProfiler::new("node".to_string(), None).enabled());
    assert!(!PhaseProfiler::new("node".to_string(), Some("")).enabled());
    let p = PhaseProfiler::new("node".to_string(), Some("yes"));
    assert!(p.enabled());
    assert_eq!(p.tag, "node");
}

#[test]
fn keys_are_equal_only_for_the_same_span() {
    assert_eq!(key_of(0, 0), 0);
    assert_eq!(key_of(1, 0), 1 << 20);
    assert_eq!(key_of(3, 5), (3 << 20) + 5);
    let spans = [(0usize, 0usize), (0, 1), (1, 0), (1, 1), (17592186044415, 1048575)];
    for (a, x) in spans.iter().enumerate() {
        for (b, y) in spans.iter().enumerate() {
            assert_eq!(key_of(x.0, x.1) == key_of(y.0, y.1), a == b);
        }
    }
}

#[test]
fn aggregates_do_not_depend_on_the_order() {
    let lengths = [7u128, 3, 9, 3];
    let forward = lengths.iter().fold(Agg::new(), |a, d| a.add(*d));
    let backward = lengths.iter().rev().fold(Agg::new(), |a, d| a.add(*d));
    assert_eq!(forward, backward);
    assert_eq!(forward, Agg { count: 4, total: 22, min: 3, max: 9 });
    // Totals stay at the largest number.
    let full = Agg::new().add(u128::MAX).add(5);
    assert_eq!(full, Agg { count: 2, total: u128::MAX, min: 5, max: u128::MAX });
}

#[test]
fn overlapping_spans_close_in_either_order() {
    let close = |first: usize, second: usize| {
        let mut p = enabled_profiler();
        p.start_at("RA", 1, 0, 0);
        p.start_at("RA", 2, 0, 4);
        let ends = [0u128, 10, 30];
        p.stop_at("RA", first, 0, ends[first]);
        p.stop_at("RA", second, 0, ends[second]);
        assert!(p.spans_open.is_empty());
        p.agg.get("RA")
    };
    assert_eq!(close(1, 2), close(2, 1));
    assert_eq!(close(1, 2), Some(Agg { count: 2, total: 36, min: 10, max: 26 }));
}

#[test]
fn timeline_adds_up_to_the_total() {
    let mut p = enabled_profiler();
    for (name, now) in [("a", 5u128), ("b", 11), ("a", 12), ("c", 11), ("d", 40)] {
        p.mark_at(name, now);
    }
    assert_eq!(p.marks, vec![("a", 5), ("b", 11), ("c", 11), ("d", 40)]);
    let r = p.report().unwrap();
    assert_eq!(r.timeline, vec![("a", 6), ("b", 0), ("c", 29)]);
    let sum: u128 = r.timeline.iter().map(|(_, gap)| *gap).sum();
    assert_eq!(Some(sum), r.total);
}

#[test]
fn throttled_reports_lie_a_second_apart() {
    let mut p = enabled_profiler();
    let second = 1_000_000_000u128;
    let mut given: Vec<u128> = Vec::new();
    for now in [3, 4, second, second + 3, second + 2, 2 * second, 2 * second + 3, 9, 5 * second] {
        if p.report_throttled_at(now).is_some() {
            given.push(now);
        }
    }
    assert_eq!(given, vec![3, second + 3, 2 * second + 3, 5 * second]);
    assert!(given.windows(2).all(|w| w[1] - w[0] >= second));
    let mut q = enabled_profiler();
    assert!(q.report_throttled().is_some());
    let first = q.last_report.unwrap();
    assert!(q.report_throttled().is_none());
    assert_eq!(q.last_report, Some(first));
}
