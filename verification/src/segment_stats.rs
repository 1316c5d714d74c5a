//! The counts of the documents of segments.

use crate::key::{name_deleted_docs, name_total_docs, StatisticKey};
use crate::segment::{Segment, statistic_in};
use vstd::prelude::*;

verus! {

/// The counter, or zero where there is none.
pub open spec fn count_or_zero(counter: Option<i64>) -> i64 {
    match counter {
        Some(count) => count,
        None => 0,
    }
}

/// How many documents a segment ever took and how many of them are deleted.
#[derive(Clone, Copy, Debug, PartialEq, Eq, Structural)]
pub struct SegmentStatistics {
    total_docs: i64,
    deleted_docs: i64,
}

impl SegmentStatistics {
    /// Reads the counts of a segment. A count that the segment does not have
    /// is zero.
    pub fn read<S: Segment>(segment: &S) -> (statistics: Result<SegmentStatistics, String>)
        ensures
            segment.reliable() ==> statistics is Ok,
            statistics matches Ok(statistics) ==> {
                &&& statistics.total_docs_spec() == count_or_zero(
                    statistic_in(segment.entries(), segment.segment_id(), name_total_docs()),
                )
                &&& statistics.deleted_docs_spec() == count_or_zero(
                    statistic_in(segment.entries(), segment.segment_id(), name_deleted_docs()),
                )
            },
    {
        let total_name = StatisticKey::TotalDocs.to_bytes();
        let total_docs = match segment.load_statistic(total_name.as_slice()) {
            Ok(Some(count)) => count,
            Ok(None) => 0,
            Err(error) => {
                return Err(error);
            },
        };
        let deleted_name = StatisticKey::DeletedDocs.to_bytes();
        let deleted_docs = match segment.load_statistic(deleted_name.as_slice()) {
            Ok(Some(count)) => count,
            Ok(None) => 0,
            Err(error) => {
                return Err(error);
            },
        };
        Ok(SegmentStatistics { total_docs, deleted_docs })
    }

    /// How many documents the segment ever took.
    pub closed spec fn total_docs_spec(&self) -> i64 {
        self.total_docs
    }

    /// How many documents of the segment are deleted.
    pub closed spec fn deleted_docs_spec(&self) -> i64 {
        self.deleted_docs
    }

    /// How many documents the segment ever took.
    #[verifier::when_used_as_spec(total_docs_spec)]
    pub fn total_docs(&self) -> (count: i64)
        ensures
            count == self.total_docs_spec(),
    {
        self.total_docs
    }

    /// How many documents of the segment are deleted.
    #[verifier::when_used_as_spec(deleted_docs_spec)]
    pub fn deleted_docs(&self) -> (count: i64)
        ensures
            count == self.deleted_docs_spec(),
    {
        self.deleted_docs
    }
}

/// The counts of each of the segments, with the id of the segment, in the order
/// of the segments. Fails only where reading a count fails.
pub fn get_segment_statistics<S: Segment>(segments: &Vec<S>) -> (statistics: Result<
    Vec<(u32, SegmentStatistics)>,
    String,
>)
    ensures
        (forall|i: int| 0 <= i < segments@.len() ==> (#[trigger] segments@[i]).reliable())
            ==> statistics is Ok,
        statistics matches Ok(statistics) ==> {
            &&& statistics@.len() == segments@.len()
            &&& forall|i: int|
                0 <= i < segments@.len() ==> {
                    &&& (#[trigger] statistics@[i]).0 == segments@[i].segment_id()
                    &&& statistics@[i].1.total_docs_spec() == count_or_zero(
                        statistic_in(
                            segments@[i].entries(),
                            segments@[i].segment_id(),
                            name_total_docs(),
                        ),
                    )
                    &&& statistics@[i].1.deleted_docs_spec() == count_or_zero(
                        statistic_in(
                            segments@[i].entries(),
                            segments@[i].segment_id(),
                            name_deleted_docs(),
                        ),
                    )
                }
        },
{
    let mut segment_stats: Vec<(u32, SegmentStatistics)> = Vec::new();
    let mut i: usize = 0;
    while i < segments.len()
        invariant
            i <= segments.len(),
            segment_stats@.len() == i,
            forall|j: int|
                0 <= j < i ==> {
                    &&& (#[trigger] segment_stats@[j]).0 == segments@[j].segment_id()
                    &&& segment_stats@[j].1.total_docs_spec() == count_or_zero(
                        statistic_in(
                            segments@[j].entries(),
                            segments@[j].segment_id(),
                            name_total_docs(),
                        ),
                    )
                    &&& segment_stats@[j].1.deleted_docs_spec() == count_or_zero(
                        statistic_in(
                            segments@[j].entries(),
                            segments@[j].segment_id(),
                            name_deleted_docs(),
                        ),
                    )
                },
        decreases segments.len() - i,
    {
        let stats = match SegmentStatistics::read(&segments[i]) {
            Ok(stats) => stats,
            Err(error) => {
                return Err(error);
            },
        };
        segment_stats.push((segments[i].id(), stats));
        i += 1;
    }
    Ok(segment_stats)
}

} // verus!
