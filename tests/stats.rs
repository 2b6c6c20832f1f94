use bombardier::{
    aggregate, get_percentile, is_error, mean_floor, percentile, summarize_endpoint,
    validate_records, window_seconds, Instant, RecordField, ReportError, Stats,
};

fn rec(timestamp: &str, name: &str, status: u16, latency: u128) -> Stats {
    Stats { timestamp: timestamp.to_string(), name: name.to_string(), status, latency }
}

#[test]
fn percentile_of_ten_values() {
    let s: Vec<u128> = vec![10, 20, 30, 40, 50, 60, 70, 80, 90, 100];
    // ranks 900 / 100, 950 / 100 and 990 / 100 are all 9: index 8
    assert_eq!(get_percentile(&s, 90), 90);
    assert_eq!(get_percentile(&s, 95), 90);
    assert_eq!(get_percentile(&s, 99), 90);
    assert_eq!(percentile(&s, 90), Ok(90));
    assert_eq!(percentile(&s, 95), Ok(90));
    assert_eq!(percentile(&s, 99), Ok(90));
    // rank 50 * 10 / 100 == 5: index 4
    assert_eq!(get_percentile(&s, 50), 50);
}

#[test]
fn percentile_rank_zero_takes_first() {
    let s: Vec<u128> = vec![7, 8, 9];
    // 30 * 3 / 100 == 0
    assert_eq!(get_percentile(&s, 30), 7);
    assert_eq!(get_percentile(&vec![42], 99), 42);
}

#[test]
fn percentile_sorts_its_input() {
    let s: Vec<u128> = vec![50, 10, 40, 20, 30];
    // rank 90 * 5 / 100 == 4, index 3 of [10, 20, 30, 40, 50]
    assert_eq!(percentile(&s, 90), Ok(40));
    assert_eq!(percentile(&s, 1), Ok(10));
}

#[test]
fn percentile_of_empty_fails() {
    let s: Vec<u128> = Vec::new();
    assert_eq!(percentile(&s, 90), Err(ReportError::InsufficientData));
}

#[test]
fn percentile_is_member_and_monotone() {
    let s: Vec<u128> = vec![5, 3, 9, 1, 7, 7, 2];
    let mut prev = 0u128;
    for p in 1..100usize {
        let v = percentile(&s, p).unwrap();
        assert!(s.contains(&v));
        assert!(v >= prev);
        prev = v;
    }
}

#[test]
fn mean_rounds_down() {
    assert_eq!(mean_floor(&vec![1, 2]), 1);
    assert_eq!(mean_floor(&vec![5, 10, 15]), 10);
    assert_eq!(mean_floor(&vec![u128::MAX, u128::MAX, u128::MAX - 3]), u128::MAX - 1);
}

#[test]
fn endpoint_summary_values() {
    let name = "login".to_string();
    let e = summarize_endpoint(&name, &vec![30, 10, 20], &vec![200, 404, 500]).unwrap();
    assert_eq!(e.name, "login");
    assert_eq!(e.count, 3);
    assert_eq!(e.min, 10);
    assert_eq!(e.max, 30);
    assert_eq!(e.avg, 20);
    assert_eq!(e.p90, 20);
    assert_eq!(e.p95, 20);
    assert_eq!(e.p99, 20);
    assert_eq!(e.error_count, 2);
}

#[test]
fn endpoint_summary_of_nothing_fails() {
    let name = "x".to_string();
    let r = summarize_endpoint(&name, &Vec::new(), &Vec::new());
    assert!(matches!(r, Err(ReportError::InsufficientData)));
}

#[test]
fn error_status_threshold() {
    assert!(is_error(400));
    assert!(is_error(503));
    assert!(!is_error(399));
    assert!(!is_error(200));
}

#[test]
fn window_subtracts_first_latency() {
    let t0 = Instant { secs: 1_700_000_000, nanos: 0 };
    let t1 = Instant { secs: 1_700_000_010, nanos: 0 };
    // 10.1 s, truncated
    assert_eq!(window_seconds(t0, 100, t1), Ok(10));
    assert_eq!(window_seconds(t0, 1_000, t1), Ok(11));
}

#[test]
fn window_under_one_second_is_degenerate() {
    let t0 = Instant { secs: 1_700_000_000, nanos: 0 };
    assert_eq!(window_seconds(t0, 100, t0), Err(ReportError::DegenerateWindow));
    assert_eq!(window_seconds(t0, 999, t0), Err(ReportError::DegenerateWindow));
    assert_eq!(window_seconds(t0, 1_000, t0), Ok(1));
    let earlier = Instant { secs: 1_699_999_990, nanos: 0 };
    assert_eq!(window_seconds(t0, 0, earlier), Err(ReportError::DegenerateWindow));
}

#[test]
fn window_with_huge_latency() {
    let t0 = Instant { secs: 0, nanos: 0 };
    assert_eq!(window_seconds(t0, u128::MAX, t0), Ok(u128::MAX / 1000));
    let a = Instant { secs: i64::MIN, nanos: 0 };
    let b = Instant { secs: i64::MAX, nanos: 999_999_999 };
    assert_eq!(window_seconds(a, 0, b), Ok(u64::MAX as u128));
}

#[test]
fn instant_parses_rfc3339() {
    let s = rec("1970-01-01T00:00:01.5Z", "a", 200, 1);
    assert_eq!(s.instant(), Some(Instant { secs: 1, nanos: 500_000_000 }));
    let z = rec("1970-01-01T01:00:00+01:00", "a", 200, 1);
    assert_eq!(z.instant(), Some(Instant { secs: 0, nanos: 0 }));
    let bad = rec("yesterday", "a", 200, 1);
    assert_eq!(bad.instant(), None);
}

#[test]
fn new_record_is_stamped_now() {
    let s = Stats::new("home", 201, 35);
    assert_eq!(s.name, "home");
    assert_eq!(s.status, 201);
    assert_eq!(s.latency, 35);
    assert!(s.instant().is_some());
}

#[test]
fn aggregate_of_nothing_fails() {
    let r = aggregate(&Vec::new());
    assert!(matches!(r, Err(ReportError::EmptyInput)));
}

#[test]
fn aggregate_reports_first_malformed_record() {
    let recs = vec![
        rec("2024-01-01T00:00:00Z", "a", 200, 5),
        rec("not a time", "a", 200, 5),
        rec("2024-01-01T00:00:10Z", "", 200, 5),
    ];
    let expected = ReportError::MalformedRecord { field: RecordField::Timestamp, position: 1 };
    assert_eq!(validate_records(&recs), Err(expected));
    assert!(matches!(aggregate(&recs), Err(e) if e == expected));
    let recs2 = vec![rec("2024-01-01T00:00:00Z", "a", 200, 5), rec("2024-01-01T00:00:10Z", "", 200, 5)];
    assert!(matches!(
        aggregate(&recs2),
        Err(ReportError::MalformedRecord { field: RecordField::Name, position: 1 })
    ));
}

#[test]
fn aggregate_single_record_is_degenerate() {
    let recs = vec![rec("2024-01-01T00:00:00Z", "a", 200, 100)];
    assert!(matches!(aggregate(&recs), Err(ReportError::DegenerateWindow)));
}

#[test]
fn aggregate_without_errors() {
    let recs = vec![
        rec("2024-01-01T00:00:00Z", "a", 200, 5),
        rec("2024-01-01T00:00:05Z", "a", 200, 10),
        rec("2024-01-01T00:00:10Z", "a", 200, 15),
    ];
    let rep = aggregate(&recs).unwrap();
    assert_eq!(rep.global.window_seconds, 10);
    assert_eq!(rep.global.total_count, 3);
    assert_eq!(rep.global.total_error_count, 0);
    assert_eq!(rep.endpoints.len(), 1);
    let e = &rep.endpoints[0];
    assert_eq!(e.error_count, 0);
    assert_eq!((e.min, e.avg, e.max), (5, 10, 15));
    let error_rate = e.error_count as f64 * 100.0 / e.count as f64;
    assert_eq!(error_rate, 0.0);
}

#[test]
fn aggregate_window_from_first_and_last() {
    let recs = vec![
        rec("2024-01-01T00:00:00Z", "a", 200, 100),
        rec("2024-01-01T00:00:04Z", "b", 200, 100),
        rec("2024-01-01T00:00:10Z", "a", 200, 100),
    ];
    assert_eq!(aggregate(&recs).unwrap().global.window_seconds, 10);
}

#[test]
fn aggregate_groups_in_first_seen_order() {
    let recs = vec![
        rec("2024-01-01T00:00:00Z", "b", 200, 4),
        rec("2024-01-01T00:00:01Z", "a", 404, 8),
        rec("2024-01-01T00:00:02Z", "b", 500, 6),
        rec("2024-01-01T00:00:03Z", "c", 200, 1),
        rec("2024-01-01T00:00:09Z", "a", 200, 2),
    ];
    let rep = aggregate(&recs).unwrap();
    let names: Vec<&str> = rep.endpoints.iter().map(|e| e.name.as_str()).collect();
    assert_eq!(names, vec!["b", "a", "c"]);
    let counts: Vec<usize> = rep.endpoints.iter().map(|e| e.count).collect();
    assert_eq!(counts, vec![2, 2, 1]);
    assert_eq!(counts.iter().sum::<usize>(), rep.global.total_count);
    assert_eq!(rep.global.total_count, 5);
    assert_eq!(rep.global.total_error_count, 2);
    assert_eq!(rep.endpoints[0].error_count, 1);
    assert_eq!(rep.endpoints[1].error_count, 1);
    assert_eq!(rep.endpoints[1].min, 2);
    assert_eq!(rep.endpoints[1].max, 8);
    assert_eq!(rep.endpoints[1].avg, 5);
    assert_eq!(rep.global.window_seconds, 9);
}

#[test]
fn aggregate_twice_is_identical() {
    let recs = vec![
        rec("2024-01-01T00:00:00Z", "x", 200, 40),
        rec("2024-01-01T00:00:01Z", "y", 503, 90),
        rec("2024-01-01T00:00:02Z", "z", 200, 10),
        rec("2024-01-01T00:00:03Z", "x", 200, 70),
        rec("2024-01-01T00:00:20Z", "y", 200, 30),
    ];
    let a = aggregate(&recs).unwrap();
    let b = aggregate(&recs).unwrap();
    assert_eq!(format!("{:?}", a), format!("{:?}", b));
}
