//! Scanning raw log lines for timestamp fields, and the collection of all
//! instants one file yields together with their observed minimum and maximum.
//!
//! A line is searched left to right for the first structurally well-formed
//! field; whatever that field denotes (possibly nothing, when its numbers make
//! no valid calendar date) is the line's contribution. Lines without a field
//! are skipped silently.

use crate::timestamp::{epoch_in_range, parse_stamp_at, shape_at, stamp_shape_at, stamp_value_at,
    LogTimestamp};
use vstd::prelude::*;

verus! {

/// The position of the first structurally well-formed field at or after
/// byte `i`, or `None` when no field starts there or later.
pub open spec fn first_stamp_from(line: Seq<u8>, i: int) -> Option<int>
    decreases line.len() - i,
{
    if i < 0 || i + 28 > line.len() {
        None
    } else if stamp_shape_at(line, i) {
        Some(i)
    } else {
        first_stamp_from(line, i + 1)
    }
}

/// The instant a line contributes: what its leftmost structurally
/// well-formed field denotes, or `None` when there is no such field or the
/// field's numbers make no valid calendar date, time of day or UTC offset.
pub open spec fn line_stamp(line: Seq<u8>) -> Option<int> {
    match first_stamp_from(line, 0) {
        None => None,
        Some(i) => stamp_value_at(line, i),
    }
}

/// The instants a whole file yields, one per line that contributes,
/// in line order.
pub open spec fn extracted_stamps(lines: Seq<Seq<u8>>) -> Seq<int>
    decreases lines.len(),
{
    if lines.len() == 0 {
        Seq::empty()
    } else {
        let rest = extracted_stamps(lines.drop_last());
        match line_stamp(lines.last()) {
            Some(e) => rest.push(e),
            None => rest,
        }
    }
}

/// The epoch values of a sequence of timestamps.
pub open spec fn epochs(ts: Seq<LogTimestamp>) -> Seq<int> {
    ts.map_values(|t: LogTimestamp| t@)
}

/// The least element of a non-empty sequence of integers.
pub open spec fn seq_min(es: Seq<int>) -> int
    recommends
        es.len() > 0,
    decreases es.len(),
{
    if es.len() <= 1 {
        es[0]
    } else if es.last() < seq_min(es.drop_last()) {
        es.last()
    } else {
        seq_min(es.drop_last())
    }
}

/// The greatest element of a non-empty sequence of integers.
pub open spec fn seq_max(es: Seq<int>) -> int
    recommends
        es.len() > 0,
    decreases es.len(),
{
    if es.len() <= 1 {
        es[0]
    } else if es.last() > seq_max(es.drop_last()) {
        es.last()
    } else {
        seq_max(es.drop_last())
    }
}

/// The minimum and maximum of a non-empty sequence bound every element, are
/// themselves elements, and stand in order.
pub proof fn lemma_seq_min_max(es: Seq<int>)
    requires
        es.len() > 0,
    ensures
        forall|j: int| 0 <= j < es.len() ==> seq_min(es) <= #[trigger] es[j] <= seq_max(es),
        exists|j: int| 0 <= j < es.len() && es[j] == seq_min(es),
        exists|j: int| 0 <= j < es.len() && es[j] == seq_max(es),
        seq_min(es) <= seq_max(es),
    decreases es.len(),
{
    if es.len() > 1 {
        let pre = es.drop_last();
        lemma_seq_min_max(pre);
        assert forall|j: int| 0 <= j < es.len() implies seq_min(es) <= #[trigger] es[j] <= seq_max(
            es,
        ) by {
            if j < es.len() - 1 {
                assert(es[j] == pre[j]);
                assert(seq_min(pre) <= pre[j] <= seq_max(pre));
            }
        }
        let jmin = choose|j: int| 0 <= j < pre.len() && pre[j] == seq_min(pre);
        let jmax = choose|j: int| 0 <= j < pre.len() && pre[j] == seq_max(pre);
        if es.last() < seq_min(pre) {
            assert(es[es.len() - 1] == seq_min(es));
        } else {
            assert(es[jmin] == pre[jmin]);
            assert(es[jmin] == seq_min(es));
        }
        if es.last() > seq_max(pre) {
            assert(es[es.len() - 1] == seq_max(es));
        } else {
            assert(es[jmax] == pre[jmax]);
            assert(es[jmax] == seq_max(es));
        }
    } else {
        assert(es[0] == seq_min(es));
        assert(es[0] == seq_max(es));
    }
}

proof fn lemma_epochs_push(ts: Seq<LogTimestamp>, t: LogTimestamp)
    ensures
        epochs(ts.push(t)) == epochs(ts).push(t@),
{
    assert(epochs(ts.push(t)) =~= epochs(ts).push(t@));
}

/// The unordered collection of instants one file yields, with the observed
/// minimum and maximum. An empty collection is signalled by `min > max`.
pub struct TimestampSet {
    pub timestamps: Vec<LogTimestamp>,
    pub min: LogTimestamp,
    pub max: LogTimestamp,
}

impl TimestampSet {
    /// Every collected instant lies in the range a four-digit year allows,
    /// and `min` and `max` are exactly the least and greatest instants; an
    /// empty collection has `min > max` instead.
    pub open spec fn wf(self) -> bool {
        &&& forall|j: int|
            0 <= j < self.timestamps@.len() ==> epoch_in_range(#[trigger] self.timestamps@[j]@)
        &&& if self.timestamps@.len() == 0 {
            self.min@ > self.max@
        } else {
            self.min@ == seq_min(epochs(self.timestamps@)) && self.max@ == seq_max(
                epochs(self.timestamps@),
            ) && epoch_in_range(self.min@) && epoch_in_range(self.max@)
        }
    }

    /// How many timestamps were collected.
    pub fn len(&self) -> (n: usize)
        ensures
            n == self.timestamps@.len(),
    {
        self.timestamps.len()
    }
}

/// Find the line's leftmost structurally well-formed field and decode it.
pub fn scan_line(line: &Vec<u8>) -> (r: Option<LogTimestamp>)
    ensures
        match r {
            Some(t) => line_stamp(line@) == Some(t@) && epoch_in_range(t@),
            None => line_stamp(line@) is None,
        },
{
    if line.len() < 28 {
        return None;
    }
    let end: usize = line.len() - 28;
    let mut i: usize = 0;
    loop
        invariant
            28 <= line@.len() <= usize::MAX,
            end == line@.len() - 28,
            0 <= i <= end + 1,
            first_stamp_from(line@, 0) == first_stamp_from(line@, i as int),
        decreases line@.len() - i,
    {
        if i > end {
            return None;
        }
        if shape_at(line, i) {
            return parse_stamp_at(line, i);
        }
        i = i + 1;
    }
}

/// Collect the instants of every line of a file, with their minimum and
/// maximum; a file with no contributing line yields an empty collection,
/// whose `min` stands above its `max`.
pub fn extract(lines: &Vec<Vec<u8>>) -> (r: TimestampSet)
    ensures
        r.wf(),
        epochs(r.timestamps@) == extracted_stamps(lines.deep_view()),
        r.timestamps@.len() == extracted_stamps(lines.deep_view()).len(),
{
    let ghost all: Seq<Seq<u8>> = lines.deep_view();
    let mut timestamps: Vec<LogTimestamp> = Vec::new();
    let mut min = LogTimestamp { epoch_seconds: i64::MAX };
    let mut max = LogTimestamp { epoch_seconds: i64::MIN };
    let mut j: usize = 0;
    while j < lines.len()
        invariant
            all == lines.deep_view(),
            all.len() == lines@.len(),
            j <= lines@.len(),
            epochs(timestamps@) == extracted_stamps(all.take(j as int)),
            forall|k: int|
                0 <= k < timestamps@.len() ==> epoch_in_range(#[trigger] timestamps@[k]@),
            timestamps@.len() == 0 ==> min.epoch_seconds == i64::MAX && max.epoch_seconds
                == i64::MIN,
            timestamps@.len() > 0 ==> min@ == seq_min(epochs(timestamps@)) && max@ == seq_max(
                epochs(timestamps@),
            ) && epoch_in_range(min@) && epoch_in_range(max@),
        decreases lines@.len() - j,
    {
        proof {
            assert(all.take(j + 1).drop_last() =~= all.take(j as int));
            assert(all.take(j + 1).last() == all[j as int]);
            assert(all[j as int] =~= lines@[j as int]@);
        }
        let line: &Vec<u8> = &lines[j];
        match scan_line(line) {
            Some(t) => {
                proof {
                    lemma_epochs_push(timestamps@, t);
                    if timestamps@.len() > 0 {
                        assert(epochs(timestamps@.push(t)).drop_last() =~= epochs(timestamps@));
                    }
                }
                timestamps.push(t);
                if t.epoch_seconds < min.epoch_seconds {
                    min = t;
                }
                if t.epoch_seconds > max.epoch_seconds {
                    max = t;
                }
            },
            None => {},
        }
        j = j + 1;
    }
    proof {
        assert(all.take(lines@.len() as int) =~= all);
    }
    TimestampSet { timestamps, min, max }
}

} // verus!
