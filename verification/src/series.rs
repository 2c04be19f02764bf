//! Bucketing a collection of instants into a complete, gap-free,
//! time-ordered series of fixed-width intervals.
//!
//! Bucket `k` covers the half-open range `[min + k*interval,
//! min + (k+1)*interval)`; the buckets start at the collection's minimum and
//! the last one contains its maximum, so the series spans `[min, max]` with a
//! zero count wherever no events occurred.

use crate::extract::{epochs, lemma_seq_min_max, seq_max, seq_min, TimestampSet};
use crate::timestamp::{epoch_in_range, LogTimestamp};
use vstd::arithmetic::div_mod::{lemma_basic_div, lemma_div_is_ordered, lemma_div_nonincreasing,
    lemma_div_pos_is_pos, lemma_fundamental_div_mod, lemma_mod_division_less_than_divisor};
use vstd::arithmetic::mul::{lemma_mul_inequality, lemma_mul_is_commutative,
    lemma_mul_is_distributive_sub_other_way, lemma_mul_strict_inequality};
use vstd::prelude::*;

verus! {

/// One fixed-width interval and how many events fell in it: bucket `k`
/// counts the instants in `[start, start + interval)`.
#[derive(Clone, Copy, Debug, PartialEq, Eq, Structural)]
pub struct IntervalBucket {
    pub start: LogTimestamp,
    pub count: u64,
}

/// The time-ordered, gap-free sequence of buckets handed to the renderer,
/// sorted ascending by start.
pub struct QpsSeries {
    pub buckets: Vec<IntervalBucket>,
}

/// Which bucket an instant `e` falls in, counted from `min` in steps of
/// `interval` seconds. Left-inclusive: an instant exactly at
/// `min + k*interval` belongs to bucket `k`.
pub open spec fn bucket_index(min: int, interval: int, e: int) -> int {
    (e - min) / interval
}

/// How many buckets cover `[min, max]`: one for every interval step from
/// `min` up to and including the one containing `max`.
pub open spec fn bucket_total(min: int, max: int, interval: int) -> int {
    (max - min) / interval + 1
}

/// How many of the instants `es` fall in bucket `k`.
pub open spec fn count_in_bucket(es: Seq<int>, min: int, interval: int, k: int) -> int
    decreases es.len(),
{
    if es.len() == 0 {
        0
    } else {
        count_in_bucket(es.drop_last(), min, interval, k) + if bucket_index(
            min,
            interval,
            es.last(),
        ) == k {
            1int
        } else {
            0int
        }
    }
}

/// The counts of buckets `0 .. n` summed.
pub open spec fn sum_counts(es: Seq<int>, min: int, interval: int, n: int) -> int
    decreases n,
{
    if n <= 0 {
        0
    } else {
        sum_counts(es, min, interval, n - 1) + count_in_bucket(es, min, interval, n - 1)
    }
}

/// The counts of a whole bucket sequence summed.
pub open spec fn total_count(bs: Seq<IntervalBucket>) -> int
    decreases bs.len(),
{
    if bs.len() == 0 {
        0
    } else {
        total_count(bs.drop_last()) + bs.last().count
    }
}

/// A bucket's count never exceeds the number of instants counted.
pub proof fn lemma_count_bounds(es: Seq<int>, min: int, interval: int, k: int)
    ensures
        0 <= count_in_bucket(es, min, interval, k) <= es.len(),
    decreases es.len(),
{
    if es.len() > 0 {
        lemma_count_bounds(es.drop_last(), min, interval, k);
    }
}

proof fn lemma_sum_counts_no_instants(es: Seq<int>, min: int, interval: int, n: int)
    requires
        es.len() == 0,
    ensures
        sum_counts(es, min, interval, n) == 0,
    decreases n,
{
    if n > 0 {
        lemma_sum_counts_no_instants(es, min, interval, n - 1);
    }
}

proof fn lemma_sum_counts_push(es: Seq<int>, x: int, min: int, interval: int, n: int)
    ensures
        sum_counts(es.push(x), min, interval, n) == sum_counts(es, min, interval, n) + if 0
            <= bucket_index(min, interval, x) < n {
            1int
        } else {
            0int
        },
    decreases n,
{
    if n > 0 {
        lemma_sum_counts_push(es, x, min, interval, n - 1);
        assert(es.push(x).drop_last() =~= es);
        assert(count_in_bucket(es.push(x), min, interval, n - 1) == count_in_bucket(
            es,
            min,
            interval,
            n - 1,
        ) + if bucket_index(min, interval, x) == n - 1 {
            1int
        } else {
            0int
        });
    }
}

/// Conservation of count: when every instant falls in one of the buckets
/// `0 .. n`, the bucket counts over `0 .. n` sum to the number of instants.
pub proof fn lemma_conservation(es: Seq<int>, min: int, interval: int, n: int)
    requires
        forall|j: int|
            0 <= j < es.len() ==> 0 <= bucket_index(min, interval, #[trigger] es[j]) < n,
    ensures
        sum_counts(es, min, interval, n) == es.len(),
    decreases es.len(),
{
    if es.len() == 0 {
        lemma_sum_counts_no_instants(es, min, interval, n);
    } else {
        let pre = es.drop_last();
        assert(forall|j: int| 0 <= j < pre.len() ==> pre[j] == #[trigger] es[j]);
        lemma_conservation(pre, min, interval, n);
        lemma_sum_counts_push(pre, es.last(), min, interval, n);
        assert(pre.push(es.last()) =~= es);
        assert(0 <= bucket_index(min, interval, es[es.len() - 1]) < n);
    }
}

/// When every bucket's count is the number of instants that fall in it, the
/// series total is the sum over all its buckets.
proof fn lemma_total_eq(bs: Seq<IntervalBucket>, es: Seq<int>, min: int, interval: int)
    requires
        forall|k: int|
            0 <= k < bs.len() ==> (#[trigger] bs[k]).count == count_in_bucket(es, min, interval, k),
    ensures
        total_count(bs) == sum_counts(es, min, interval, bs.len() as int),
    decreases bs.len(),
{
    if bs.len() > 0 {
        let pre = bs.drop_last();
        assert(forall|k: int| 0 <= k < pre.len() ==> #[trigger] pre[k] == bs[k]);
        lemma_total_eq(pre, es, min, interval);
        assert(bs[bs.len() - 1].count == count_in_bucket(es, min, interval, bs.len() - 1));
    }
}

/// Boundary assignment: an instant exactly at `min + k*interval` falls in
/// bucket `k`, not its neighbours — the intervals are left-inclusive.
pub proof fn lemma_boundary_assignment(min: int, interval: int, k: int)
    requires
        interval >= 1,
        0 <= k,
    ensures
        bucket_index(min, interval, min + k * interval) == k,
{
    vstd::arithmetic::div_mod::lemma_fundamental_div_mod_converse_div(
        k * interval,
        interval,
        k,
        0,
    );
}

/// Bucket starts grow strictly with the index: distinct buckets have
/// distinct starts.
pub proof fn lemma_starts_strictly_increasing(min: int, interval: int, k1: int, k2: int)
    requires
        interval >= 1,
        k1 < k2,
    ensures
        min + k1 * interval < min + k2 * interval,
{
    lemma_mul_strict_inequality(k1, k2, interval);
}

/// Single-point stability: a collection holding exactly one instant spans a
/// single bucket that starts at the instant itself and counts it once,
/// whatever the interval width.
pub proof fn lemma_single_point(ts: TimestampSet, interval: int)
    requires
        ts.wf(),
        ts.timestamps@.len() == 1,
        interval >= 1,
    ensures
        ts.min@ == ts.timestamps@[0]@,
        ts.max@ == ts.timestamps@[0]@,
        bucket_total(ts.min@, ts.max@, interval) == 1,
        count_in_bucket(epochs(ts.timestamps@), ts.min@, interval, 0) == 1,
{
    let es = epochs(ts.timestamps@);
    assert(es.len() == 1);
    assert(seq_min(es) == es[0] && seq_max(es) == es[0]);
    lemma_basic_div(0, interval);
    assert(es.last() == es[0]);
    assert(count_in_bucket(es.drop_last(), ts.min@, interval, 0) == 0);
}

/// Bucket the instants of `ts` into fixed `interval`-second intervals
/// covering `[min, max]` without gaps: bucket `k` starts exactly `k`
/// intervals after `min`, holds the number of instants whose index is `k`,
/// and consecutive starts differ by exactly `interval` seconds. The counts
/// sum to the number of instants. An empty collection yields an empty
/// series.
#[verifier::rlimit(50)]
pub fn aggregate(ts: &TimestampSet, interval: u64) -> (s: QpsSeries)
    requires
        interval >= 1,
        ts.wf(),
        ts.min@ <= ts.max@ ==> bucket_total(ts.min@, ts.max@, interval as int) <= usize::MAX,
    ensures
        ts.min@ > ts.max@ ==> s.buckets@.len() == 0,
        ts.min@ <= ts.max@ ==> s.buckets@.len() == bucket_total(
            ts.min@,
            ts.max@,
            interval as int,
        ),
        forall|k: int|
            0 <= k < s.buckets@.len() ==> (#[trigger] s.buckets@[k]).start@ == ts.min@ + k * (
            interval as int),
        forall|k: int|
            0 <= k < s.buckets@.len() ==> (#[trigger] s.buckets@[k]).count == count_in_bucket(
                epochs(ts.timestamps@),
                ts.min@,
                interval as int,
                k,
            ),
        forall|k: int|
            1 <= k < s.buckets@.len() ==> (#[trigger] s.buckets@[k]).start@ - s.buckets@[k
                - 1].start@ == interval as int,
        total_count(s.buckets@) == ts.timestamps@.len(),
{
    let ghost es = epochs(ts.timestamps@);
    let ghost ival = interval as int;
    let mut buckets: Vec<IntervalBucket> = Vec::new();
    if ts.min.epoch_seconds > ts.max.epoch_seconds {
        assert(ts.timestamps@.len() == 0);
        assert(total_count(buckets@) == 0);
        return QpsSeries { buckets };
    }
    let minv: i64 = ts.min.epoch_seconds;
    let maxv: i64 = ts.max.epoch_seconds;
    let n_ts: usize = ts.timestamps.len();
    proof {
        assert(ts.timestamps@.len() > 0);
        lemma_seq_min_max(es);
        assert(es.len() == ts.timestamps@.len());
        assert(seq_min(es) == ts.min@ && seq_max(es) == ts.max@);
        assert(epoch_in_range(minv as int) && epoch_in_range(maxv as int));
    }
    let span: u64 = (maxv - minv) as u64;
    proof {
        lemma_div_nonincreasing(span as int, ival);
    }
    let nb64: u64 = span / interval + 1;
    assert(nb64 == bucket_total(minv as int, maxv as int, ival));
    assert(nb64 <= usize::MAX);
    let nb: usize = nb64 as usize;

    // Lay out every bucket start from `min` in steps of `interval`, count
    // zero, so the series has no time gaps even where no events occurred.
    let mut start: i64 = minv;
    let mut k: usize = 0;
    while k < nb
        invariant
            interval >= 1,
            ival == interval as int,
            epoch_in_range(minv as int),
            epoch_in_range(maxv as int),
            minv <= maxv,
            span == maxv - minv,
            1 <= nb == bucket_total(minv as int, maxv as int, ival) <= usize::MAX,
            k <= nb,
            buckets@.len() == k,
            k < nb ==> start == minv + k * ival && minv <= start <= maxv,
            forall|j: int|
                0 <= j < k ==> (#[trigger] buckets@[j]).start@ == minv + j * ival && buckets@[j].count
                    == 0,
        decreases nb - k,
    {
        buckets.push(IntervalBucket { start: LogTimestamp { epoch_seconds: start }, count: 0 });
        k = k + 1;
        if k < nb {
            proof {
                // One more start is needed, so at least two buckets exist and
                // the next start still lies at or before `max`.
                if span < interval {
                    lemma_basic_div(span as int, ival);
                    assert(false);
                }
                lemma_mul_inequality(k as int, nb - 1, ival);
                lemma_fundamental_div_mod(span as int, ival);
                lemma_mod_division_less_than_divisor(span as int, ival);
                lemma_mul_is_commutative(nb - 1, ival);
                assert((nb - 1) * ival <= span);
                lemma_mul_is_distributive_sub_other_way(ival, k as int, k - 1);
                assert((k - (k - 1)) * ival == k * ival - (k - 1) * ival);
                vstd::arithmetic::mul::lemma_mul_basics(ival);
            }
            start = start + (interval as i64);
        }
    }
    proof {
        assert forall|j: int| 0 <= j < nb implies (#[trigger] buckets@[j]).count == count_in_bucket(
            es.take(0),
            minv as int,
            ival,
            j,
        ) by {
            assert(es.take(0).len() == 0);
        }
        // Every instant lies between `min` and `max`, so its bucket index is
        // one of the laid-out buckets.
        assert forall|j: int| 0 <= j < es.len() implies 0 <= bucket_index(
            minv as int,
            ival,
            #[trigger] es[j],
        ) < nb by {
            lemma_div_pos_is_pos(es[j] - minv, ival);
            lemma_div_is_ordered(es[j] - minv, maxv - minv, ival);
        }
    }

    // Send each instant to its bucket.
    let mut t_idx: usize = 0;
    while t_idx < n_ts
        invariant
            interval >= 1,
            ival == interval as int,
            ts.wf(),
            es == epochs(ts.timestamps@),
            n_ts == ts.timestamps@.len(),
            es.len() == n_ts,
            minv == ts.min@ && maxv == ts.max@,
            minv <= maxv,
            span == maxv - minv,
            1 <= nb == bucket_total(minv as int, maxv as int, ival) <= usize::MAX,
            buckets@.len() == nb,
            t_idx <= n_ts,
            forall|j: int|
                0 <= j < es.len() ==> 0 <= bucket_index(minv as int, ival, #[trigger] es[j]) < nb,
            forall|j: int|
                0 <= j < nb ==> (#[trigger] buckets@[j]).start@ == minv + j * ival,
            forall|j: int|
                0 <= j < nb ==> (#[trigger] buckets@[j]).count == count_in_bucket(
                    es.take(t_idx as int),
                    minv as int,
                    ival,
                    j,
                ),
        decreases n_ts - t_idx,
    {
        let t: LogTimestamp = ts.timestamps[t_idx];
        proof {
            assert(es[t_idx as int] == ts.timestamps@[t_idx as int]@);
            assert(0 <= bucket_index(minv as int, ival, es[t_idx as int]) < nb);
            lemma_seq_min_max(es);
        }
        let diff: u64 = (t.epoch_seconds - minv) as u64;
        let bi64: u64 = diff / interval;
        assert(bi64 == bucket_index(minv as int, ival, t@) < nb);
        let bi: usize = bi64 as usize;
        let b: IntervalBucket = buckets[bi];
        proof {
            lemma_count_bounds(es.take(t_idx as int), minv as int, ival, bi as int);
        }
        buckets[bi] = IntervalBucket { start: b.start, count: b.count + 1 };
        proof {
            assert(es.take(t_idx + 1).drop_last() =~= es.take(t_idx as int));
            assert(es.take(t_idx + 1).last() == es[t_idx as int]);
            assert forall|j: int| 0 <= j < nb implies (#[trigger] buckets@[j]).count
                == count_in_bucket(es.take(t_idx + 1), minv as int, ival, j) by {
                assert(count_in_bucket(es.take(t_idx + 1), minv as int, ival, j) == count_in_bucket(
                    es.take(t_idx as int),
                    minv as int,
                    ival,
                    j,
                ) + if bucket_index(minv as int, ival, es[t_idx as int]) == j {
                    1int
                } else {
                    0int
                });
            }
        }
        t_idx = t_idx + 1;
    }
    proof {
        assert(es.take(n_ts as int) =~= es);
        lemma_conservation(es, minv as int, ival, nb as int);
        lemma_total_eq(buckets@, es, minv as int, ival);
        // Consecutive starts differ by exactly one interval.
        assert forall|j: int| 1 <= j < nb implies (#[trigger] buckets@[j]).start@ - buckets@[j
            - 1].start@ == ival by {
            lemma_mul_is_distributive_sub_other_way(ival, j, j - 1);
            assert(j * ival - (j - 1) * ival == (j - (j - 1)) * ival);
            vstd::arithmetic::mul::lemma_mul_basics(ival);
        }
    }
    QpsSeries { buckets }
}

} // verus!
