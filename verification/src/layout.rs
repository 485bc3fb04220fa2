//! The files the optimizer writes: which columns each output keeps, when a
//! partition writer switches files, and the names of the Hilbert staging
//! tables and files.
use crate::decimal::{decimal_string, zero_padded_text, zero_padded_unsigned_string};
use crate::partition::{dec_chars, PartitionKey};
use crate::text::{ascii_chars, str_equal};
use vstd::prelude::*;

verus! {

/// The index of the first column named `name`.
pub open spec fn first_column(names: Seq<String>, name: Seq<char>) -> Option<int>
    decreases names.len(),
{
    if names.len() == 0 {
        None
    } else {
        match first_column(names.drop_last(), name) {
            Some(i) => Some(i),
            None => if names.last()@ == name {
                Some(names.len() - 1)
            } else {
                None
            },
        }
    }
}

/// The position of the first column named `name` in a schema's field names.
pub fn column_index(names: &Vec<String>, name: &str) -> (r: Option<usize>)
    ensures
        r matches Some(i) ==> first_column(names@, name@) == Some(i as int),
        r is None ==> first_column(names@, name@) is None,
{
    let mut i: usize = 0;
    while i < names.len()
        invariant
            i <= names@.len(),
            first_column(names@.subrange(0, i as int), name@) is None,
        decreases names.len() - i,
    {
        proof {
            assert(names@.subrange(0, i + 1).drop_last() =~= names@.subrange(0, i as int));
        }
        if str_equal(names[i].as_str(), name) {
            proof {
                lemma_first_column_prefix(names@, name@, i as int + 1);
            }
            return Some(i);
        }
        i = i + 1;
    }
    assert(names@.subrange(0, names@.len() as int) =~= names@);
    None
}

proof fn lemma_first_column_prefix(names: Seq<String>, name: Seq<char>, k: int)
    requires
        0 <= k <= names.len(),
        first_column(names.subrange(0, k), name) is Some,
    ensures
        first_column(names, name) == first_column(names.subrange(0, k), name),
    decreases names.len() - k,
{
    if k < names.len() {
        assert(names.subrange(0, k + 1).drop_last() =~= names.subrange(0, k));
        lemma_first_column_prefix(names, name, k + 1);
    } else {
        assert(names.subrange(0, k) =~= names);
    }
}

/// The name of the Hilbert index column.
pub open spec fn hilbert_column() -> Seq<char> {
    "hilbert_index"@
}

/// A column an output file keeps: not one of the partition columns `year`,
/// `month` and `day`, and not the Hilbert index unless `keep_hilbert`.
pub open spec fn column_kept(name: Seq<char>, keep_hilbert: bool) -> bool {
    name != "year"@ && name != "month"@ && name != "day"@ && (keep_hilbert || name != hilbert_column())
}

/// The indexes of the columns `column_kept` keeps, in order.
pub open spec fn kept_columns_spec(names: Seq<String>, keep_hilbert: bool) -> Seq<usize>
    decreases names.len(),
{
    if names.len() == 0 {
        Seq::empty()
    } else if column_kept(names.last()@, keep_hilbert) {
        kept_columns_spec(names.drop_last(), keep_hilbert).push((names.len() - 1) as usize)
    } else {
        kept_columns_spec(names.drop_last(), keep_hilbert)
    }
}

/// The columns of a batch that go into a partition file, as indexes into the
/// batch's field names.
pub fn kept_column_indexes(names: &Vec<String>, keep_hilbert: bool) -> (r: Vec<usize>)
    ensures
        r@ == kept_columns_spec(names@, keep_hilbert),
{
    let mut r: Vec<usize> = Vec::new();
    let mut i: usize = 0;
    while i < names.len()
        invariant
            i <= names@.len(),
            r@ == kept_columns_spec(names@.subrange(0, i as int), keep_hilbert),
        decreases names.len() - i,
    {
        let name = names[i].as_str();
        let kept = !str_equal(name, "year") && !str_equal(name, "month") && !str_equal(name, "day")
            && (keep_hilbert || !str_equal(name, "hilbert_index"));
        proof {
            assert(names@.subrange(0, i + 1).drop_last() =~= names@.subrange(0, i as int));
        }
        if kept {
            r.push(i);
        }
        i = i + 1;
    }
    assert(names@.subrange(0, names@.len() as int) =~= names@);
    r
}

/// What a partition writer does with a batch for partition `key`.
#[derive(Debug, Clone, Copy, PartialEq, Eq, Structural)]
pub enum WriterAction {
    /// Append to the open file of that partition.
    Append,
    /// Close the open file, if any, and open the file of the new partition.
    Reopen,
}

/// A writer appends to its open file while the partition stays the same and
/// opens the partition's file otherwise.
pub fn writer_action(active: Option<PartitionKey>, key: PartitionKey) -> (r: WriterAction)
    ensures
        r == (if active == Some(key) { WriterAction::Append } else { WriterAction::Reopen }),
{
    match active {
        Some(k) => if k == key {
            WriterAction::Append
        } else {
            WriterAction::Reopen
        },
        None => WriterAction::Reopen,
    }
}

/// The name of the in-memory table of a partition's Hilbert-indexed rows.
pub open spec fn staging_table_spec(key: PartitionKey) -> Seq<char> {
    "hilbert_staging_"@ + dec_chars(key.year as int) + "_"@ + dec_chars(key.month as int) + "_"@
        + dec_chars(key.day as int)
}

/// `hilbert_staging_Y_M_D`.
pub fn staging_table_name(key: PartitionKey) -> (r: String)
    ensures
        r@ == staging_table_spec(key),
{
    let mut s = String::from_str("hilbert_staging_");
    s.append(decimal_string(key.year as i64).as_str());
    s.append("_");
    s.append(decimal_string(key.month as i64).as_str());
    s.append("_");
    s.append(decimal_string(key.day as i64).as_str());
    s
}

/// The name of the `n`-th Hilbert staging file of a partition.
pub open spec fn staging_file_spec(n: int) -> Seq<char> {
    "part-"@ + ascii_chars(zero_padded_text(n, 5)) + ".parquet"@
}

/// `part-NNNNN.parquet`, the number zero-padded to five digits.
pub fn staging_file_name(n: usize) -> (r: String)
    ensures
        r@ == staging_file_spec(n as int),
{
    let mut s = String::from_str("part-");
    s.append(zero_padded_unsigned_string(n as u64, 5).as_str());
    s.append(".parquet");
    s
}

/// Where the next Hilbert staging batch of a partition goes: the number of
/// the file to open next, the rows written to the open file, and whether one
/// is open.
#[derive(Debug, Clone, Copy, PartialEq, Eq, Structural)]
pub struct StagingRotation {
    pub next_file: usize,
    pub rows_in_file: usize,
    pub open: bool,
}

impl StagingRotation {
    /// No staging file yet.
    pub fn new() -> (r: Self)
        ensures
            r == (StagingRotation { next_file: 0, rows_in_file: 0, open: false }),
    {
        StagingRotation { next_file: 0, rows_in_file: 0, open: false }
    }

    /// Before writing a batch: when no file is open or the open one holds
    /// `max_rows_per_file` rows or more, the number of the file to open
    /// instead (the open one, if any, is closed).
    pub fn before_batch(&mut self, max_rows_per_file: usize) -> (r: Option<usize>)
        requires
            old(self).next_file < usize::MAX,
        ensures
            !old(self).open || old(self).rows_in_file >= max_rows_per_file ==> r == Some(old(self).next_file)
                && *final(self) == (StagingRotation {
                next_file: (old(self).next_file + 1) as usize,
                rows_in_file: 0,
                open: true,
            }),
            old(self).open && old(self).rows_in_file < max_rows_per_file ==> r is None && *final(self)
                == *old(self),
    {
        if !self.open || self.rows_in_file >= max_rows_per_file {
            let n = self.next_file;
            self.next_file = self.next_file + 1;
            self.rows_in_file = 0;
            self.open = true;
            Some(n)
        } else {
            None
        }
    }

    /// After writing a batch of `rows` rows to the open file.
    pub fn after_batch(&mut self, rows: usize)
        requires
            old(self).rows_in_file + rows <= usize::MAX,
        ensures
            *final(self) == (StagingRotation {
                rows_in_file: (old(self).rows_in_file + rows) as usize,
                ..*old(self)
            }),
    {
        self.rows_in_file = self.rows_in_file + rows;
    }
}

/// The row limit of a Hilbert staging file: ten row groups.
pub fn max_rows_per_staging_file(row_group_size: usize) -> (r: usize)
    requires
        row_group_size * 10 <= usize::MAX,
    ensures
        r == row_group_size * 10,
{
    row_group_size * 10
}

} // verus!
