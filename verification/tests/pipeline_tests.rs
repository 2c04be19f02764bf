use qps_series::extract::extract;
use qps_series::pipeline::{axis_time_format, build_series, validate_for_render, QpsError,
    TimeLabelFormat};
use qps_series::series::QpsSeries;

fn log_lines(stamps: &[&str]) -> Vec<Vec<u8>> {
    stamps
        .iter()
        .map(|s| format!("1.2.3.4 - - [{}] \"GET / HTTP/1.1\" 200 1", s).into_bytes())
        .collect()
}

#[test]
fn end_to_end_scenario() {
    // Events at 00:00:01, 00:00:01, 00:00:02 and 00:00:05, bucketed per
    // second: five buckets counting 2, 1, 0, 0, 1.
    let lines = log_lines(&[
        "18/Mar/2025:00:00:01 +0000",
        "18/Mar/2025:00:00:01 +0000",
        "18/Mar/2025:00:00:02 +0000",
        "18/Mar/2025:00:00:05 +0000",
    ]);
    let ts = extract(&lines);
    let series = build_series(&ts, 1).unwrap();
    let base = 1742256001i64; // 2025-03-18T00:00:01Z
    let expected = [2u64, 1, 0, 0, 1];
    assert_eq!(series.buckets.len(), expected.len());
    for (k, b) in series.buckets.iter().enumerate() {
        assert_eq!(b.start.epoch_seconds, base + k as i64);
        assert_eq!(b.count, expected[k]);
    }
}

#[test]
fn empty_input_fails_before_rendering() {
    let lines = log_lines(&[]);
    let ts = extract(&lines);
    assert!(matches!(build_series(&ts, 1), Err(QpsError::EmptyResult)));

    let unparseable = vec![b"no stamp".to_vec(), b"[broken] line".to_vec()];
    let ts2 = extract(&unparseable);
    assert!(matches!(build_series(&ts2, 60), Err(QpsError::EmptyResult)));
}

#[test]
fn zero_interval_is_rejected_first() {
    let lines = log_lines(&["18/Mar/2025:00:00:01 +0000"]);
    let ts = extract(&lines);
    assert!(matches!(build_series(&ts, 0), Err(QpsError::InvalidConfiguration)));
    let none = extract(&log_lines(&[]));
    assert!(matches!(build_series(&none, 0), Err(QpsError::InvalidConfiguration)));
}

#[test]
fn renderer_guard_rejects_empty_series() {
    let empty = QpsSeries { buckets: Vec::new() };
    assert_eq!(validate_for_render(&empty), Err(QpsError::EmptyResult));

    let lines = log_lines(&["18/Mar/2025:00:00:01 +0000"]);
    let series = build_series(&extract(&lines), 1).unwrap();
    assert!(validate_for_render(&series).is_ok());
}

#[test]
fn axis_format_follows_interval_magnitude() {
    assert_eq!(axis_time_format(1), TimeLabelFormat::HourMinuteSecond);
    assert_eq!(axis_time_format(59), TimeLabelFormat::HourMinuteSecond);
    assert_eq!(axis_time_format(60), TimeLabelFormat::HourMinute);
    assert_eq!(axis_time_format(3599), TimeLabelFormat::HourMinute);
    assert_eq!(axis_time_format(3600), TimeLabelFormat::MonthDayHourMinute);
    assert_eq!(axis_time_format(86400), TimeLabelFormat::MonthDayHourMinute);
}

#[test]
fn axis_format_patterns() {
    assert_eq!(TimeLabelFormat::HourMinuteSecond.pattern(), "%H:%M:%S");
    assert_eq!(TimeLabelFormat::HourMinute.pattern(), "%H:%M");
    assert_eq!(TimeLabelFormat::MonthDayHourMinute.pattern(), "%m-%d %H:%M");
}
