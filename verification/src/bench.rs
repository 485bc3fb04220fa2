//! Bookkeeping of benchmark runs: what happened to each file and row group,
//! whether the layouts agree on a query's count, and the ranking of the
//! layouts by median time.
use crate::query::{no_row_filter_spec, query_has_no_row_filter, Operation, QueryDef};
use vstd::prelude::*;

verus! {

/// Where a row group of a scanned file ended up.
#[derive(Debug, Clone, Copy, PartialEq, Eq, Structural)]
pub enum RowGroupFate {
    /// Skipped on its column statistics.
    StatsSkipped,
    /// Skipped because its Hilbert index range misses the query's intervals.
    HilbertSkipped,
    /// Skipped because a Bloom filter rules out the query's values.
    BloomSkipped,
    /// Read and decoded.
    Decoded,
}

/// The fate of a row group, given the verdicts of the three pruning steps in
/// the order they are tried: statistics, then Hilbert intervals (only tried
/// when the query has some), then Bloom filters (only on Bloom layouts).
pub fn row_group_fate(stats_skip: bool, hilbert_skip: bool, bloom_skip: bool) -> (r: RowGroupFate)
    ensures
        r == (if stats_skip {
            RowGroupFate::StatsSkipped
        } else if hilbert_skip {
            RowGroupFate::HilbertSkipped
        } else if bloom_skip {
            RowGroupFate::BloomSkipped
        } else {
            RowGroupFate::Decoded
        }),
{
    if stats_skip {
        RowGroupFate::StatsSkipped
    } else if hilbert_skip {
        RowGroupFate::HilbertSkipped
    } else if bloom_skip {
        RowGroupFate::BloomSkipped
    } else {
        RowGroupFate::Decoded
    }
}

/// Counters of one run of a query over one layout.
#[derive(Debug, Clone, Copy, PartialEq, Eq, Structural)]
pub struct Metrics {
    pub files_total: usize,
    pub files_skipped_partition: usize,
    pub files_scanned: usize,
    pub row_groups_total: usize,
    pub row_groups_skipped_stats: usize,
    pub row_groups_skipped_hilbert: usize,
    pub row_groups_skipped_bloom: usize,
    pub row_groups_decoded: usize,
    pub rows_decoded: usize,
    pub rows_matched: usize,
}

impl Metrics {
    /// All counters at zero.
    pub fn new() -> (r: Self)
        ensures
            r == (Metrics {
                files_total: 0,
                files_skipped_partition: 0,
                files_scanned: 0,
                row_groups_total: 0,
                row_groups_skipped_stats: 0,
                row_groups_skipped_hilbert: 0,
                row_groups_skipped_bloom: 0,
                row_groups_decoded: 0,
                rows_decoded: 0,
                rows_matched: 0,
            }),
    {
        Metrics {
            files_total: 0,
            files_skipped_partition: 0,
            files_scanned: 0,
            row_groups_total: 0,
            row_groups_skipped_stats: 0,
            row_groups_skipped_hilbert: 0,
            row_groups_skipped_bloom: 0,
            row_groups_decoded: 0,
            rows_decoded: 0,
            rows_matched: 0,
        }
    }

    /// Counts a file, skipped by its partition or scanned.
    pub fn record_file(&mut self, skipped: bool)
        requires
            old(self).files_total < usize::MAX,
            old(self).files_skipped_partition < usize::MAX,
            old(self).files_scanned < usize::MAX,
        ensures
            *final(self) == (if skipped {
                Metrics {
                    files_total: (old(self).files_total + 1) as usize,
                    files_skipped_partition: (old(self).files_skipped_partition + 1) as usize,
                    ..*old(self)
                }
            } else {
                Metrics {
                    files_total: (old(self).files_total + 1) as usize,
                    files_scanned: (old(self).files_scanned + 1) as usize,
                    ..*old(self)
                }
            }),
    {
        self.files_total = self.files_total + 1;
        if skipped {
            self.files_skipped_partition = self.files_skipped_partition + 1;
        } else {
            self.files_scanned = self.files_scanned + 1;
        }
    }

    /// Counts a row group with its fate.
    pub fn record_row_group(&mut self, fate: RowGroupFate)
        requires
            old(self).row_groups_total < usize::MAX,
            old(self).row_groups_skipped_stats < usize::MAX,
            old(self).row_groups_skipped_hilbert < usize::MAX,
            old(self).row_groups_skipped_bloom < usize::MAX,
            old(self).row_groups_decoded < usize::MAX,
        ensures
            final(self).row_groups_total == old(self).row_groups_total + 1,
            final(self).row_groups_skipped_stats == old(self).row_groups_skipped_stats + (if fate
                == RowGroupFate::StatsSkipped {
                1int
            } else {
                0
            }),
            final(self).row_groups_skipped_hilbert == old(self).row_groups_skipped_hilbert + (if fate
                == RowGroupFate::HilbertSkipped {
                1int
            } else {
                0
            }),
            final(self).row_groups_skipped_bloom == old(self).row_groups_skipped_bloom + (if fate
                == RowGroupFate::BloomSkipped {
                1int
            } else {
                0
            }),
            final(self).row_groups_decoded == old(self).row_groups_decoded + (if fate
                == RowGroupFate::Decoded {
                1int
            } else {
                0
            }),
            *final(self) == (Metrics {
                row_groups_total: final(self).row_groups_total,
                row_groups_skipped_stats: final(self).row_groups_skipped_stats,
                row_groups_skipped_hilbert: final(self).row_groups_skipped_hilbert,
                row_groups_skipped_bloom: final(self).row_groups_skipped_bloom,
                row_groups_decoded: final(self).row_groups_decoded,
                ..*old(self)
            }),
    {
        self.row_groups_total = self.row_groups_total + 1;
        match fate {
            RowGroupFate::StatsSkipped => {
                self.row_groups_skipped_stats = self.row_groups_skipped_stats + 1;
            },
            RowGroupFate::HilbertSkipped => {
                self.row_groups_skipped_hilbert = self.row_groups_skipped_hilbert + 1;
            },
            RowGroupFate::BloomSkipped => {
                self.row_groups_skipped_bloom = self.row_groups_skipped_bloom + 1;
            },
            RowGroupFate::Decoded => {
                self.row_groups_decoded = self.row_groups_decoded + 1;
            },
        }
    }

    /// Counts `rows` decoded rows.
    pub fn record_rows_decoded(&mut self, rows: usize)
        requires
            old(self).rows_decoded + rows <= usize::MAX,
        ensures
            *final(self) == (Metrics { rows_decoded: (old(self).rows_decoded + rows) as usize, ..*old(self) }),
    {
        self.rows_decoded = self.rows_decoded + rows;
    }
}

/// A `Count` query without filters is answered from the row counts in the
/// metadata of the kept row groups, without decoding them.
pub fn count_from_metadata(q: &QueryDef) -> (r: bool)
    ensures
        r == (no_row_filter_spec(q) && q.operation == Operation::Count),
{
    query_has_no_row_filter(q) && q.operation == Operation::Count
}

/// All layouts report the same count for a query (and there is at least one).
pub open spec fn counts_agree(counts: Seq<usize>) -> bool {
    counts.len() > 0 && forall|i: int| 0 <= i < counts.len() ==> #[trigger] counts[i] == counts[0]
}

/// Whether the layouts agree on a query's count.
pub fn counts_consistent(counts: &Vec<usize>) -> (r: bool)
    ensures
        r == counts_agree(counts@),
{
    if counts.len() == 0 {
        return false;
    }
    let first = counts[0];
    let mut i: usize = 1;
    while i < counts.len()
        invariant
            counts@.len() > 0,
            first == counts@[0],
            1 <= i <= counts@.len(),
            forall|j: int| 0 <= j < i ==> #[trigger] counts@[j] == first,
        decreases counts.len() - i,
    {
        if counts[i] != first {
            return false;
        }
        i = i + 1;
    }
    true
}

/// Layout `a` ranks before layout `b`: a shorter median time, or the same
/// time and an earlier position in the list of layouts.
pub open spec fn ranks_before(times: Seq<u128>, a: usize, b: usize) -> bool {
    times[a as int] < times[b as int] || (times[a as int] == times[b as int] && a <= b)
}

/// The positions of the layouts, fastest first; equal times keep the order
/// of the layouts.
pub fn rank_by_time(times: &Vec<u128>) -> (r: Vec<usize>)
    ensures
        r@.len() == times@.len(),
        forall|i: int| 0 <= i < r@.len() ==> #[trigger] r@[i] < times@.len(),
        forall|i: int, j: int| 0 <= i < j < r@.len() ==> r@[i] != r@[j],
        forall|i: int, j: int| 0 <= i < j < r@.len() ==> ranks_before(times@, #[trigger] r@[i], #[trigger] r@[j]),
{
    let mut r: Vec<usize> = Vec::new();
    let mut k: usize = 0;
    while k < times.len()
        invariant
            k <= times@.len(),
            r@.len() == k,
            forall|i: int| 0 <= i < r@.len() ==> #[trigger] r@[i] < k,
            forall|i: int, j: int| 0 <= i < j < r@.len() ==> r@[i] != r@[j],
            forall|i: int, j: int| 0 <= i < j < r@.len() ==> ranks_before(times@, #[trigger] r@[i], #[trigger] r@[j]),
        decreases times.len() - k,
    {
        let t = times[k];
        let mut j: usize = r.len();
        while j > 0 && times[r[j - 1]] > t
            invariant
                j <= r@.len(),
                r@.len() == k,
                k < times@.len(),
                t == times@[k as int],
                forall|i: int| 0 <= i < r@.len() ==> #[trigger] r@[i] < k,
                forall|i: int| j <= i < r@.len() ==> times@[#[trigger] r@[i] as int] > t,
            decreases j,
        {
            j = j - 1;
        }
        let ghost old_r = r@;
        proof {
            assert forall|i: int| 0 <= i < j implies ranks_before(times@, #[trigger] old_r[i], k) by {
                if i < j - 1 {
                    assert(ranks_before(times@, old_r[i], old_r[j - 1]));
                }
            }
        }
        r.insert(j, k);
        proof {
            assert(r@ == old_r.insert(j as int, k));
            assert forall|a: int, b: int| 0 <= a < b < r@.len() implies ranks_before(
                times@,
                #[trigger] r@[a],
                #[trigger] r@[b],
            ) by {
                if b < j {
                    assert(ranks_before(times@, old_r[a], old_r[b]));
                } else if b == j {
                } else if a < j {
                    assert(ranks_before(times@, old_r[a], old_r[b - 1]));
                    assert(times@[old_r[b - 1] as int] > t);
                } else if a == j {
                    assert(times@[old_r[b - 1] as int] > t);
                } else {
                    assert(ranks_before(times@, old_r[a - 1], old_r[b - 1]));
                }
            }
            assert forall|a: int, b: int| 0 <= a < b < r@.len() implies r@[a] != r@[b] by {
                if a != j && b != j {
                    let a0 = if a < j { a } else { a - 1 };
                    let b0 = if b < j { b } else { b - 1 };
                    assert(old_r[a0] != old_r[b0]);
                }
            }
        }
        k = k + 1;
    }
    r
}

} // verus!
