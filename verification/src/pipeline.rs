//! The caller-facing boundary of the pipeline: configuration and emptiness
//! checks before aggregation, the guard in front of the renderer, and the
//! choice of axis label granularity.

use crate::extract::TimestampSet;
use crate::series::{aggregate, bucket_total, count_in_bucket, total_count, QpsSeries};
use crate::extract::epochs;
use vstd::arithmetic::div_mod::lemma_div_pos_is_pos;
use vstd::prelude::*;

verus! {

/// Why a run cannot proceed: a bucketing interval of zero, or no parseable
/// timestamps to plot.
#[derive(Clone, Copy, Debug, PartialEq, Eq, Structural)]
pub enum QpsError {
    InvalidConfiguration,
    EmptyResult,
}

/// Aggregate after the boundary checks: an interval of zero is rejected
/// before aggregation runs, and a collection with no timestamps is rejected
/// so that the renderer is never handed an empty series. On success the
/// series covers `[min, max]` gap-free as `aggregate` lays it out, and is
/// never empty.
pub fn build_series(ts: &TimestampSet, interval: u64) -> (r: Result<QpsSeries, QpsError>)
    requires
        ts.wf(),
        interval >= 1 && ts.min@ <= ts.max@ ==> bucket_total(ts.min@, ts.max@, interval as int)
            <= usize::MAX,
    ensures
        r is Err <==> (interval == 0 || ts.timestamps@.len() == 0),
        interval == 0 ==> r == Err::<QpsSeries, QpsError>(QpsError::InvalidConfiguration),
        interval >= 1 && ts.timestamps@.len() == 0 ==> r == Err::<QpsSeries, QpsError>(
            QpsError::EmptyResult,
        ),
        r matches Ok(s) ==> {
            &&& s.buckets@.len() == bucket_total(ts.min@, ts.max@, interval as int)
            &&& s.buckets@.len() >= 1
            &&& forall|k: int|
                0 <= k < s.buckets@.len() ==> (#[trigger] s.buckets@[k]).start@ == ts.min@ + k * (
                interval as int)
            &&& forall|k: int|
                0 <= k < s.buckets@.len() ==> (#[trigger] s.buckets@[k]).count == count_in_bucket(
                    epochs(ts.timestamps@),
                    ts.min@,
                    interval as int,
                    k,
                )
            &&& forall|k: int|
                1 <= k < s.buckets@.len() ==> (#[trigger] s.buckets@[k]).start@ - s.buckets@[k
                    - 1].start@ == interval as int
            &&& total_count(s.buckets@) == ts.timestamps@.len()
        },
{
    if interval == 0 {
        return Err(QpsError::InvalidConfiguration);
    }
    if ts.timestamps.len() == 0 {
        return Err(QpsError::EmptyResult);
    }
    proof {
        crate::extract::lemma_seq_min_max(epochs(ts.timestamps@));
        lemma_div_pos_is_pos(ts.max@ - ts.min@, interval as int);
    }
    Ok(aggregate(ts, interval))
}

/// The renderer has nothing to draw from an empty series; reject one before
/// it is ever invoked.
pub fn validate_for_render(s: &QpsSeries) -> (r: Result<(), QpsError>)
    ensures
        r is Ok <==> s.buckets@.len() > 0,
        s.buckets@.len() == 0 ==> r == Err::<(), QpsError>(QpsError::EmptyResult),
{
    if s.buckets.len() == 0 {
        Err(QpsError::EmptyResult)
    } else {
        Ok(())
    }
}

/// The granularity of the chart's time-axis labels, selected by the
/// magnitude of the bucketing interval.
#[derive(Clone, Copy, Debug, PartialEq, Eq, Structural)]
pub enum TimeLabelFormat {
    HourMinuteSecond,
    HourMinute,
    MonthDayHourMinute,
}

/// The label granularity a given interval width calls for: seconds below a
/// minute, minutes below an hour, day and time beyond.
pub open spec fn spec_axis_time_format(interval: u64) -> TimeLabelFormat {
    if interval < 60 {
        TimeLabelFormat::HourMinuteSecond
    } else if interval < 3600 {
        TimeLabelFormat::HourMinute
    } else {
        TimeLabelFormat::MonthDayHourMinute
    }
}

/// Choose the time-axis label granularity for an interval width.
pub fn axis_time_format(interval: u64) -> (f: TimeLabelFormat)
    ensures
        f == spec_axis_time_format(interval),
{
    if interval < 60 {
        TimeLabelFormat::HourMinuteSecond
    } else if interval < 3600 {
        TimeLabelFormat::HourMinute
    } else {
        TimeLabelFormat::MonthDayHourMinute
    }
}

impl TimeLabelFormat {
    /// The strftime pattern the renderer uses for this granularity.
    pub fn pattern(&self) -> (p: &'static str)
        ensures
            self is HourMinuteSecond ==> p@ == "%H:%M:%S"@,
            self is HourMinute ==> p@ == "%H:%M"@,
            self is MonthDayHourMinute ==> p@ == "%m-%d %H:%M"@,
    {
        match self {
            TimeLabelFormat::HourMinuteSecond => "%H:%M:%S",
            TimeLabelFormat::HourMinute => "%H:%M",
            TimeLabelFormat::MonthDayHourMinute => "%m-%d %H:%M",
        }
    }
}

} // verus!
