use qps_series::extract::TimestampSet;
use qps_series::series::aggregate;
use qps_series::timestamp::LogTimestamp;

fn stamp(e: i64) -> LogTimestamp {
    LogTimestamp { epoch_seconds: e }
}

fn set_of(epochs: &[i64]) -> TimestampSet {
    let timestamps: Vec<LogTimestamp> = epochs.iter().map(|&e| stamp(e)).collect();
    let min = epochs.iter().min().copied().unwrap_or(1);
    let max = epochs.iter().max().copied().unwrap_or(0);
    TimestampSet { timestamps, min: stamp(min), max: stamp(max) }
}

#[test]
fn single_timestamp_single_bucket() {
    // One timestamp produces exactly one bucket regardless of the interval.
    for interval in [1u64, 7, 300, 86400] {
        let s = aggregate(&set_of(&[1742227204]), interval);
        assert_eq!(s.buckets.len(), 1);
        assert_eq!(s.buckets[0].start.epoch_seconds, 1742227204);
        assert_eq!(s.buckets[0].count, 1);
    }
}

#[test]
fn boundary_timestamp_lands_in_its_own_bucket() {
    // 1010 is exactly min + 2 * 5: it belongs to bucket 2, not bucket 1.
    let s = aggregate(&set_of(&[1000, 1010]), 5);
    assert_eq!(s.buckets.len(), 3);
    assert_eq!(s.buckets[0].start.epoch_seconds, 1000);
    assert_eq!(s.buckets[0].count, 1);
    assert_eq!(s.buckets[1].start.epoch_seconds, 1005);
    assert_eq!(s.buckets[1].count, 0);
    assert_eq!(s.buckets[2].start.epoch_seconds, 1010);
    assert_eq!(s.buckets[2].count, 1);
}

#[test]
fn buckets_are_complete_and_evenly_spaced() {
    let s = aggregate(&set_of(&[1000, 1033]), 10);
    assert_eq!(s.buckets.len(), 4);
    for (k, b) in s.buckets.iter().enumerate() {
        assert_eq!(b.start.epoch_seconds, 1000 + 10 * k as i64);
    }
}

#[test]
fn counts_sum_to_number_of_timestamps() {
    let s = aggregate(&set_of(&[100, 100, 101, 103, 103, 103, 109]), 3);
    let total: u64 = s.buckets.iter().map(|b| b.count).sum();
    assert_eq!(total, 7);
    assert_eq!(s.buckets.len(), 4);
    assert_eq!(s.buckets[0].count, 3); // 100, 100, 101
    assert_eq!(s.buckets[1].count, 3); // 103 three times
    assert_eq!(s.buckets[2].count, 0);
    assert_eq!(s.buckets[3].count, 1); // 109
}

#[test]
fn empty_collection_yields_empty_series() {
    let s = aggregate(&set_of(&[]), 60);
    assert_eq!(s.buckets.len(), 0);
}

#[test]
fn wide_interval_collapses_to_one_bucket() {
    let s = aggregate(&set_of(&[1000, 1001, 1599]), 3600);
    assert_eq!(s.buckets.len(), 1);
    assert_eq!(s.buckets[0].start.epoch_seconds, 1000);
    assert_eq!(s.buckets[0].count, 3);
}

#[test]
fn negative_epochs_are_bucketed() {
    // Instants before 1970 have negative epoch seconds.
    let s = aggregate(&set_of(&[-100, -91]), 10);
    assert_eq!(s.buckets.len(), 1);
    assert_eq!(s.buckets[0].start.epoch_seconds, -100);
    assert_eq!(s.buckets[0].count, 2);
}
