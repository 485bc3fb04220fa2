//! Pruning row groups on their column statistics: a row group is skipped
//! when a filter of the query admits no value between the min and max its
//! column records.
use crate::matching::{cells_fit, row_matches_spec, RowCells};
use crate::partition::TimeRange;
use crate::query::QueryDef;
use crate::text::{bytes_less, bytes_lt};
use vstd::prelude::*;
use vstd::utf8::encode_utf8;

verus! {

/// The statistics of one column chunk of a row group, as far as pruning
/// reads them.
pub struct ColumnStats {
    /// The column's path, such as `MMSI`.
    pub path: String,
    /// Min and max of an `Int64` column, when both are recorded.
    pub int64: Option<(i64, i64)>,
    /// Min and max of a byte-array column, when both are recorded.
    pub bytes: Option<(Vec<u8>, Vec<u8>)>,
}

/// The index of the column named `name`; when several columns share a path
/// the last one counts, as in a map filled from the columns in order.
pub open spec fn column_slot(cols: Seq<ColumnStats>, name: Seq<char>) -> Option<int>
    decreases cols.len(),
{
    if cols.len() == 0 {
        None
    } else if cols.last().path@ == name {
        Some(cols.len() - 1)
    } else {
        column_slot(cols.drop_last(), name)
    }
}

/// The `Int64` min and max of column `name`.
pub open spec fn int64_stats_spec(cols: Seq<ColumnStats>, name: Seq<char>) -> Option<(i64, i64)> {
    match column_slot(cols, name) {
        Some(i) => cols[i].int64,
        None => None,
    }
}

/// The byte-array min and max of column `name`.
pub open spec fn byte_stats_spec(cols: Seq<ColumnStats>, name: Seq<char>) -> Option<(Seq<u8>, Seq<u8>)> {
    match column_slot(cols, name) {
        Some(i) => match cols[i].bytes {
            Some((lo, hi)) => Some((lo@, hi@)),
            None => None,
        },
        None => None,
    }
}

proof fn lemma_column_slot_bound(cols: Seq<ColumnStats>, name: Seq<char>)
    ensures
        column_slot(cols, name) matches Some(i) ==> 0 <= i < cols.len(),
    decreases cols.len(),
{
    if cols.len() > 0 {
        lemma_column_slot_bound(cols.drop_last(), name);
    }
}

/// The index of the last column whose path is `name`.
pub fn find_column(cols: &Vec<ColumnStats>, name: &str) -> (r: Option<usize>)
    ensures
        r matches Some(i) ==> column_slot(cols@, name@) == Some(i as int),
        r is None ==> column_slot(cols@, name@) is None,
{
    let mut i = cols.len();
    assert(cols@.subrange(0, i as int) =~= cols@);
    while i > 0
        invariant
            i <= cols@.len(),
            column_slot(cols@, name@) == column_slot(cols@.subrange(0, i as int), name@),
        decreases i,
    {
        let ghost prefix = cols@.subrange(0, i as int);
        if crate::text::str_equal(cols[i - 1].path.as_str(), name) {
            return Some(i - 1);
        }
        assert(prefix.drop_last() =~= cols@.subrange(0, i - 1));
        i = i - 1;
    }
    None
}

/// The `Int64` min and max of column `name`, if recorded.
pub fn int64_stats(cols: &Vec<ColumnStats>, name: &str) -> (r: Option<(i64, i64)>)
    ensures
        r == int64_stats_spec(cols@, name@),
{
    proof {
        lemma_column_slot_bound(cols@, name@);
    }
    match find_column(cols, name) {
        Some(i) => cols[i].int64,
        None => None,
    }
}

/// The `BaseDateTime` statistics rule out every row of the time range.
pub open spec fn time_excludes(cols: Seq<ColumnStats>, time_range: Option<TimeRange>) -> bool {
    match time_range {
        Some(t) => match int64_stats_spec(cols, "BaseDateTime"@) {
            Some((min, max)) => max < t.start_us || min >= t.end_us,
            None => false,
        },
        None => false,
    }
}

/// The min/max of string column `column` leave out `value`.
pub open spec fn bytes_eq_excludes(cols: Seq<ColumnStats>, column: Seq<char>, value: Seq<char>) -> bool {
    match byte_stats_spec(cols, column) {
        Some((min, max)) => bytes_lt(encode_utf8(value), min) || bytes_lt(max, encode_utf8(value)),
        None => false,
    }
}

/// The min/max of string column `column` leave out every one of `values`.
pub open spec fn bytes_in_excludes(cols: Seq<ColumnStats>, column: Seq<char>, values: Seq<String>) -> bool {
    match byte_stats_spec(cols, column) {
        Some((min, max)) => !exists|k: int|
            0 <= k < values.len() && !bytes_lt(encode_utf8(#[trigger] values[k]@), min) && !bytes_lt(
                max,
                encode_utf8(values[k]@),
            ),
        None => false,
    }
}

/// The min/max of `Int64` column `column` leave out `value`.
pub open spec fn int64_eq_excludes(cols: Seq<ColumnStats>, column: Seq<char>, value: i64) -> bool {
    match int64_stats_spec(cols, column) {
        Some((min, max)) => value < min || value > max,
        None => false,
    }
}

/// The min/max of `Int64` column `column` leave out every one of `values`.
pub open spec fn int64_in_excludes(cols: Seq<ColumnStats>, column: Seq<char>, values: Seq<i64>) -> bool {
    match int64_stats_spec(cols, column) {
        Some((min, max)) => !exists|k: int| 0 <= k < values.len() && min <= #[trigger] values[k] <= max,
        None => false,
    }
}

/// A row group can be skipped on its statistics: some filter of the query
/// admits no value between the recorded min and max. `ranges_exclude` is the
/// verdict of the query's range filters on the row group's float statistics.
pub open spec fn stats_skip_spec(cols: Seq<ColumnStats>, q: &QueryDef, ranges_exclude: bool) -> bool {
    ||| time_excludes(cols, q.time_range)
    ||| ranges_exclude
    ||| exists|i: int|
        0 <= i < q.equalities@.len() && bytes_eq_excludes(
            cols,
            (#[trigger] q.equalities@[i]).0@,
            q.equalities@[i].1@,
        )
    ||| exists|i: int|
        0 <= i < q.in_filters@.len() && bytes_in_excludes(
            cols,
            (#[trigger] q.in_filters@[i]).0@,
            q.in_filters@[i].1@,
        )
    ||| exists|i: int|
        0 <= i < q.equalities_i64@.len() && int64_eq_excludes(
            cols,
            (#[trigger] q.equalities_i64@[i]).0@,
            q.equalities_i64@[i].1,
        )
    ||| exists|i: int|
        0 <= i < q.in_filters_i64@.len() && int64_in_excludes(
            cols,
            (#[trigger] q.in_filters_i64@[i]).0@,
            q.in_filters_i64@[i].1@,
        )
}

fn bytes_eq_excluded(cols: &Vec<ColumnStats>, column: &str, value: &str) -> (r: bool)
    ensures
        r == bytes_eq_excludes(cols@, column@, value@),
{
    proof {
        lemma_column_slot_bound(cols@, column@);
    }
    match find_column(cols, column) {
        Some(i) => match &cols[i].bytes {
            Some((min, max)) => {
                let v = value.as_bytes();
                bytes_less(v, min.as_slice()) || bytes_less(max.as_slice(), v)
            },
            None => false,
        },
        None => false,
    }
}

fn bytes_in_excluded(cols: &Vec<ColumnStats>, column: &str, values: &Vec<String>) -> (r: bool)
    ensures
        r == bytes_in_excludes(cols@, column@, values@),
{
    proof {
        lemma_column_slot_bound(cols@, column@);
    }
    match find_column(cols, column) {
        Some(i) => match &cols[i].bytes {
            Some((min, max)) => {
                let mut k: usize = 0;
                while k < values.len()
                    invariant
                        k <= values@.len(),
                        byte_stats_spec(cols@, column@) == Some((min@, max@)),
                        forall|j: int|
                            0 <= j < k ==> !(!bytes_lt(encode_utf8(#[trigger] values@[j]@), min@)
                                && !bytes_lt(max@, encode_utf8(values@[j]@))),
                    decreases values.len() - k,
                {
                    let v = values[k].as_str().as_bytes();
                    if !bytes_less(v, min.as_slice()) && !bytes_less(max.as_slice(), v) {
                        assert(values@[k as int]@ == values[k as int]@);
                        return false;
                    }
                    k = k + 1;
                }
                true
            },
            None => false,
        },
        None => false,
    }
}

fn int64_eq_excluded(cols: &Vec<ColumnStats>, column: &str, value: i64) -> (r: bool)
    ensures
        r == int64_eq_excludes(cols@, column@, value),
{
    match int64_stats(cols, column) {
        Some((min, max)) => value < min || value > max,
        None => false,
    }
}

fn int64_in_excluded(cols: &Vec<ColumnStats>, column: &str, values: &Vec<i64>) -> (r: bool)
    ensures
        r == int64_in_excludes(cols@, column@, values@),
{
    match int64_stats(cols, column) {
        Some((min, max)) => {
            let mut k: usize = 0;
            while k < values.len()
                invariant
                    k <= values@.len(),
                    int64_stats_spec(cols@, column@) == Some((min, max)),
                    forall|j: int| 0 <= j < k ==> !(min <= #[trigger] values@[j] <= max),
                decreases values.len() - k,
            {
                if min <= values[k] && values[k] <= max {
                    assert(min <= values@[k as int] <= max);
                    return false;
                }
                k = k + 1;
            }
            true
        },
        None => false,
    }
}

/// Whether a row group can be skipped on its column statistics.
/// `ranges_exclude` is whether the query's range filters rule the row group
/// out on its float min/max.
pub fn stats_skip_row_group(cols: &Vec<ColumnStats>, q: &QueryDef, ranges_exclude: bool) -> (r: bool)
    ensures
        r == stats_skip_spec(cols@, q, ranges_exclude),
        ranges_exclude ==> r,
        (q.time_range matches Some(t) && (int64_stats_spec(cols@, "BaseDateTime"@) matches Some((min, max)) && (max
            < t.start_us || min >= t.end_us))) ==> r,
        forall|i: int|
            (0 <= i < q.equalities@.len() && (byte_stats_spec(cols@, (#[trigger] q.equalities@[i]).0@) matches Some(
                (min, max),
            ) && (bytes_lt(encode_utf8(q.equalities@[i].1@), min) || bytes_lt(max, encode_utf8(q.equalities@[i].1@)))))
                ==> r,
        forall|i: int|
            (0 <= i < q.in_filters@.len() && (byte_stats_spec(cols@, (#[trigger] q.in_filters@[i]).0@) matches Some(
                (min, max),
            ) && forall|k: int|
                0 <= k < q.in_filters@[i].1@.len() ==> (bytes_lt(encode_utf8(q.in_filters@[i].1@[k]@), min)
                    || bytes_lt(max, encode_utf8(q.in_filters@[i].1@[k]@))))) ==> r,
        forall|i: int|
            (0 <= i < q.equalities_i64@.len() && (int64_stats_spec(cols@, (#[trigger] q.equalities_i64@[i]).0@) matches Some(
                (min, max),
            ) && (q.equalities_i64@[i].1 < min || q.equalities_i64@[i].1 > max))) ==> r,
        forall|i: int|
            (0 <= i < q.in_filters_i64@.len() && (int64_stats_spec(cols@, (#[trigger] q.in_filters_i64@[i]).0@) matches Some(
                (min, max),
            ) && forall|k: int|
                0 <= k < q.in_filters_i64@[i].1@.len() ==> (q.in_filters_i64@[i].1@[k] < min
                    || q.in_filters_i64@[i].1@[k] > max))) ==> r,
{
    proof {
        lemma_stats_pruning_complete(cols@, q, ranges_exclude);
    }
    if let Some(time_range) = q.time_range {
        if let Some((min, max)) = int64_stats(cols, "BaseDateTime") {
            if max < time_range.start_us || min >= time_range.end_us {
                return true;
            }
        }
    }
    if ranges_exclude {
        return true;
    }
    let mut i: usize = 0;
    while i < q.equalities.len()
        invariant
            i <= q.equalities@.len(),
            forall|j: int|
                0 <= j < i ==> !bytes_eq_excludes(
                    cols@,
                    (#[trigger] q.equalities@[j]).0@,
                    q.equalities@[j].1@,
                ),
        decreases q.equalities.len() - i,
    {
        if bytes_eq_excluded(cols, q.equalities[i].0.as_str(), q.equalities[i].1.as_str()) {
            return true;
        }
        i = i + 1;
    }
    let mut i: usize = 0;
    while i < q.in_filters.len()
        invariant
            i <= q.in_filters@.len(),
            forall|j: int|
                0 <= j < i ==> !bytes_in_excludes(
                    cols@,
                    (#[trigger] q.in_filters@[j]).0@,
                    q.in_filters@[j].1@,
                ),
        decreases q.in_filters.len() - i,
    {
        if bytes_in_excluded(cols, q.in_filters[i].0.as_str(), &q.in_filters[i].1) {
            return true;
        }
        i = i + 1;
    }
    let mut i: usize = 0;
    while i < q.equalities_i64.len()
        invariant
            i <= q.equalities_i64@.len(),
            forall|j: int|
                0 <= j < i ==> !int64_eq_excludes(
                    cols@,
                    (#[trigger] q.equalities_i64@[j]).0@,
                    q.equalities_i64@[j].1,
                ),
        decreases q.equalities_i64.len() - i,
    {
        if int64_eq_excluded(cols, q.equalities_i64[i].0.as_str(), q.equalities_i64[i].1) {
            return true;
        }
        i = i + 1;
    }
    let mut i: usize = 0;
    while i < q.in_filters_i64.len()
        invariant
            i <= q.in_filters_i64@.len(),
            forall|j: int|
                0 <= j < i ==> !int64_in_excludes(
                    cols@,
                    (#[trigger] q.in_filters_i64@[j]).0@,
                    q.in_filters_i64@[j].1@,
                ),
        decreases q.in_filters_i64.len() - i,
    {
        if int64_in_excluded(cols, q.in_filters_i64[i].0.as_str(), &q.in_filters_i64[i].1) {
            return true;
        }
        i = i + 1;
    }
    false
}

/// Each value that the query's filters read from the row lies between the
/// min and max recorded for its column in the row group (where recorded):
/// the row belongs to the row group.
pub open spec fn row_within_stats(cols: Seq<ColumnStats>, q: &QueryDef, cells: &RowCells) -> bool {
    &&& match (int64_stats_spec(cols, "BaseDateTime"@), cells.timestamp) {
        (Some((lo, hi)), Some(v)) => lo <= v <= hi,
        _ => true,
    }
    &&& forall|i: int|
        0 <= i < q.equalities@.len() ==> match (
            byte_stats_spec(cols, (#[trigger] q.equalities@[i]).0@),
            cells.equality_values@[i],
        ) {
            (Some((lo, hi)), Some(v)) => !bytes_lt(encode_utf8(v@), lo) && !bytes_lt(hi, encode_utf8(v@)),
            _ => true,
        }
    &&& forall|i: int|
        0 <= i < q.in_filters@.len() ==> match (
            byte_stats_spec(cols, (#[trigger] q.in_filters@[i]).0@),
            cells.in_values@[i],
        ) {
            (Some((lo, hi)), Some(v)) => !bytes_lt(encode_utf8(v@), lo) && !bytes_lt(hi, encode_utf8(v@)),
            _ => true,
        }
    &&& forall|i: int|
        0 <= i < q.equalities_i64@.len() ==> match (
            int64_stats_spec(cols, (#[trigger] q.equalities_i64@[i]).0@),
            cells.equality_i64_values@[i],
        ) {
            (Some((lo, hi)), Some(v)) => lo <= v <= hi,
            _ => true,
        }
    &&& forall|i: int|
        0 <= i < q.in_filters_i64@.len() ==> match (
            int64_stats_spec(cols, (#[trigger] q.in_filters_i64@[i]).0@),
            cells.in_i64_values@[i],
        ) {
            (Some((lo, hi)), Some(v)) => lo <= v <= hi,
            _ => true,
        }
}

/// Pruning on statistics never drops a matching row: when a row of the row
/// group passes every filter (its float ranges included), the row group is
/// not skipped.
pub proof fn lemma_stats_pruning_sound(cols: Seq<ColumnStats>, q: &QueryDef, cells: &RowCells)
    requires
        cells_fit(q, cells),
        row_within_stats(cols, q, cells),
        row_matches_spec(q, cells, true),
    ensures
        !stats_skip_spec(cols, q, false),
{
    assert forall|i: int| 0 <= i < q.equalities@.len() implies !bytes_eq_excludes(
        cols,
        (#[trigger] q.equalities@[i]).0@,
        q.equalities@[i].1@,
    ) by {
        assert(cells.equality_values@[i] matches Some(v) && v@ == q.equalities@[i].1@);
    }
    assert forall|i: int| 0 <= i < q.in_filters@.len() implies !bytes_in_excludes(
        cols,
        (#[trigger] q.in_filters@[i]).0@,
        q.in_filters@[i].1@,
    ) by {
        let cell = cells.in_values@[i];
        assert(cell matches Some(v) && exists|k: int|
            0 <= k < q.in_filters@[i].1@.len() && (#[trigger] q.in_filters@[i].1@[k])@ == v@);
        let v = cell.unwrap();
        let k = choose|k: int|
            0 <= k < q.in_filters@[i].1@.len() && (#[trigger] q.in_filters@[i].1@[k])@ == v@;
        let values = q.in_filters@[i].1@;
        if let Some((lo, hi)) = byte_stats_spec(cols, q.in_filters@[i].0@) {
            assert(!bytes_lt(encode_utf8(values[k]@), lo) && !bytes_lt(hi, encode_utf8(values[k]@)));
        }
    }
    assert forall|i: int| 0 <= i < q.equalities_i64@.len() implies !int64_eq_excludes(
        cols,
        (#[trigger] q.equalities_i64@[i]).0@,
        q.equalities_i64@[i].1,
    ) by {
        assert(cells.equality_i64_values@[i] == Some(q.equalities_i64@[i].1));
    }
    assert forall|i: int| 0 <= i < q.in_filters_i64@.len() implies !int64_in_excludes(
        cols,
        (#[trigger] q.in_filters_i64@[i]).0@,
        q.in_filters_i64@[i].1@,
    ) by {
        let cell = cells.in_i64_values@[i];
        assert(cell matches Some(v) && q.in_filters_i64@[i].1@.contains(v));
        let v = cell.unwrap();
        let values = q.in_filters_i64@[i].1@;
        let k = choose|k: int| 0 <= k < values.len() && values[k] == v;
        if let Some((lo, hi)) = int64_stats_spec(cols, q.in_filters_i64@[i].0@) {
            assert(lo <= values[k] <= hi);
        }
    }
}

/// Law: a row group is skipped whenever its statistics leave out what a
/// filter asks for: the range filters rule it out; its `BaseDateTime` range
/// ends before the query's time range starts or starts at or after it ends;
/// the value of a string or `Int64` equality lies below its column's
/// recorded min or above its max; or every value of a string or `Int64` `IN`
/// list does.
pub proof fn lemma_stats_pruning_complete(cols: Seq<ColumnStats>, q: &QueryDef, ranges_exclude: bool)
    ensures
        ranges_exclude ==> stats_skip_spec(cols, q, ranges_exclude),
        (q.time_range matches Some(t) && (int64_stats_spec(cols, "BaseDateTime"@) matches Some((min, max)) && (max
            < t.start_us || min >= t.end_us))) ==> stats_skip_spec(cols, q, ranges_exclude),
        forall|i: int|
            (0 <= i < q.equalities@.len() && (byte_stats_spec(cols, (#[trigger] q.equalities@[i]).0@) matches Some(
                (min, max),
            ) && (bytes_lt(encode_utf8(q.equalities@[i].1@), min) || bytes_lt(max, encode_utf8(q.equalities@[i].1@)))))
                ==> stats_skip_spec(cols, q, ranges_exclude),
        forall|i: int|
            (0 <= i < q.in_filters@.len() && (byte_stats_spec(cols, (#[trigger] q.in_filters@[i]).0@) matches Some(
                (min, max),
            ) && forall|k: int|
                0 <= k < q.in_filters@[i].1@.len() ==> (bytes_lt(encode_utf8(q.in_filters@[i].1@[k]@), min)
                    || bytes_lt(max, encode_utf8(q.in_filters@[i].1@[k]@))))) ==> stats_skip_spec(cols, q, ranges_exclude),
        forall|i: int|
            (0 <= i < q.equalities_i64@.len() && (int64_stats_spec(cols, (#[trigger] q.equalities_i64@[i]).0@) matches Some(
                (min, max),
            ) && (q.equalities_i64@[i].1 < min || q.equalities_i64@[i].1 > max))) ==> stats_skip_spec(cols, q, ranges_exclude),
        forall|i: int|
            (0 <= i < q.in_filters_i64@.len() && (int64_stats_spec(cols, (#[trigger] q.in_filters_i64@[i]).0@) matches Some(
                (min, max),
            ) && forall|k: int|
                0 <= k < q.in_filters_i64@[i].1@.len() ==> (q.in_filters_i64@[i].1@[k] < min
                    || q.in_filters_i64@[i].1@[k] > max))) ==> stats_skip_spec(cols, q, ranges_exclude),
{
    assert forall|i: int|
        (0 <= i < q.equalities@.len() && (byte_stats_spec(cols, (#[trigger] q.equalities@[i]).0@) matches Some(
            (min, max),
        ) && (bytes_lt(encode_utf8(q.equalities@[i].1@), min) || bytes_lt(max, encode_utf8(q.equalities@[i].1@)))))
            implies stats_skip_spec(cols, q, ranges_exclude) by {
        assert(bytes_eq_excludes(cols, q.equalities@[i].0@, q.equalities@[i].1@));
    }
    assert forall|i: int|
        (0 <= i < q.in_filters@.len() && (byte_stats_spec(cols, (#[trigger] q.in_filters@[i]).0@) matches Some(
            (min, max),
        ) && forall|k: int|
            0 <= k < q.in_filters@[i].1@.len() ==> (bytes_lt(encode_utf8(q.in_filters@[i].1@[k]@), min)
                || bytes_lt(max, encode_utf8(q.in_filters@[i].1@[k]@))))) implies stats_skip_spec(
        cols,
        q,
        ranges_exclude,
    ) by {
        assert(bytes_in_excludes(cols, q.in_filters@[i].0@, q.in_filters@[i].1@));
    }
    assert forall|i: int|
        (0 <= i < q.equalities_i64@.len() && (int64_stats_spec(cols, (#[trigger] q.equalities_i64@[i]).0@) matches Some(
            (min, max),
        ) && (q.equalities_i64@[i].1 < min || q.equalities_i64@[i].1 > max))) implies stats_skip_spec(
        cols,
        q,
        ranges_exclude,
    ) by {
        assert(int64_eq_excludes(cols, q.equalities_i64@[i].0@, q.equalities_i64@[i].1));
    }
    assert forall|i: int|
        (0 <= i < q.in_filters_i64@.len() && (int64_stats_spec(cols, (#[trigger] q.in_filters_i64@[i]).0@) matches Some(
            (min, max),
        ) && forall|k: int|
            0 <= k < q.in_filters_i64@[i].1@.len() ==> (q.in_filters_i64@[i].1@[k] < min
                || q.in_filters_i64@[i].1@[k] > max))) implies stats_skip_spec(cols, q, ranges_exclude) by {
        let values = q.in_filters_i64@[i].1@;
        assert(int64_in_excludes(cols, q.in_filters_i64@[i].0@, values)) by {
            if exists|k: int| 0 <= k < values.len() && values[k] >= int64_stats_spec(cols, q.in_filters_i64@[i].0@).unwrap().0
                && values[k] <= int64_stats_spec(cols, q.in_filters_i64@[i].0@).unwrap().1 {
                let k = choose|k: int| 0 <= k < values.len() && values[k] >= int64_stats_spec(cols, q.in_filters_i64@[i].0@).unwrap().0
                    && values[k] <= int64_stats_spec(cols, q.in_filters_i64@[i].0@).unwrap().1;
                assert(q.in_filters_i64@[i].1@[k] == values[k]);
            }
        }
    }
}

} // verus!
