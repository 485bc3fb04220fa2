//! Settings of the optimizer: per-column Bloom filter NDV overrides, the
//! Parquet writer settings of each output, the Bloom filter column list, the
//! smart row-group size and the number of parallel jobs.
use crate::decimal::{parse_u64_decimal, parse_u64_spec};
use crate::text::{count_byte, distinct_strings, first_occurrences, str_equal, views};
use vstd::prelude::*;
use vstd::utf8::{encode_utf8, is_char_boundary_iff_not_is_continuation_byte, encode_utf8_valid_utf8};

verus! {

/// Why a `COLUMN=NDV` override was rejected.
#[derive(Debug, Clone, Copy, PartialEq, Eq, Structural)]
pub enum NdvOverrideError {
    /// The text does not hold exactly one `=`.
    Format,
    /// The part after `=` is not a `u64`.
    Value,
}

/// The index of the first byte of `b` equal to `x`, or `b.len()` if none is.
pub open spec fn first_byte_index(b: Seq<u8>, x: u8) -> int
    decreases b.len(),
{
    if b.len() == 0 {
        0
    } else if b[0] == x {
        0
    } else {
        1 + first_byte_index(b.drop_first(), x)
    }
}

/// The result of reading `COLUMN=NDV`: the column's UTF-8 bytes and the NDV.
pub open spec fn ndv_override_spec(s: Seq<char>) -> Result<(Seq<u8>, u64), NdvOverrideError> {
    let b = encode_utf8(s);
    let i = first_byte_index(b, 61);
    if count_byte(b, 61) != 1 {
        Err(NdvOverrideError::Format)
    } else {
        match parse_u64_spec(b.subrange(i + 1, b.len() as int)) {
            Some(v) => Ok((b.subrange(0, i), v)),
            None => Err(NdvOverrideError::Value),
        }
    }
}

proof fn lemma_first_byte_index(b: Seq<u8>, x: u8)
    ensures
        0 <= first_byte_index(b, x) <= b.len(),
        first_byte_index(b, x) < b.len() ==> b[first_byte_index(b, x)] == x,
        forall|k: int| 0 <= k < first_byte_index(b, x) ==> b[k] != x,
    decreases b.len(),
{
    if b.len() > 0 && b[0] != x {
        lemma_first_byte_index(b.drop_first(), x);
        assert forall|k: int| 0 <= k < first_byte_index(b, x) implies b[k] != x by {
            if k > 0 {
                assert(b[k] == b.drop_first()[k - 1]);
            }
        }
    }
}

/// Reads a `--bloom-ndv-per-column` value `COLUMN=NDV`, such as `MMSI=50000`.
pub fn parse_bloom_ndv_per_column(s: &str) -> (r: Result<(String, u64), NdvOverrideError>)
    ensures
        r matches Ok((name, ndv)) ==> ndv_override_spec(s@) == Ok::<(Seq<u8>, u64), NdvOverrideError>(
            (encode_utf8(name@), ndv),
        ),
        r matches Err(e) ==> ndv_override_spec(s@) == Err::<(Seq<u8>, u64), NdvOverrideError>(e),
{
    let b = s.as_bytes();
    let ghost bs = b@;
    let mut count: usize = 0;
    let mut first: usize = b.len();
    let mut k: usize = 0;
    while k < b.len()
        invariant
            bs == b@,
            k <= b@.len(),
            count <= k,
            count == count_byte(b@.subrange(0, k as int), 61),
            first == (if count == 0 { b@.len() as int } else { first_byte_index(b@, 61) }),
            count == 0 ==> forall|j: int| 0 <= j < k ==> b@[j] != 61,
            count > 0 ==> first < k,
        decreases b.len() - k,
    {
        proof {
            assert(b@.subrange(0, k + 1).drop_last() =~= b@.subrange(0, k as int));
        }
        if b[k] == 61 {
            if count == 0 {
                proof {
                    lemma_first_byte_index(b@, 61);
                }
                first = k;
            }
            count = count + 1;
        }
        k = k + 1;
    }
    proof {
        assert(b@.subrange(0, b@.len() as int) =~= b@);
        lemma_first_byte_index(b@, 61);
    }
    if count != 1 {
        return Err(NdvOverrideError::Format);
    }
    let ndv = match parse_u64_decimal(b, first + 1, b.len()) {
        Some(v) => v,
        None => {
            return Err(NdvOverrideError::Value);
        },
    };
    proof {
        encode_utf8_valid_utf8(s@);
        is_char_boundary_iff_not_is_continuation_byte(bs, first as int);
    }
    let (head, _tail) = s.split_at(first);
    Ok((String::from_str(head), ndv))
}

/// The NDV of `column`: the last override naming it, else `default`.
pub open spec fn ndv_for_column_spec(column: Seq<char>, overrides: Seq<(String, u64)>, default: u64) -> u64
    decreases overrides.len(),
{
    if overrides.len() == 0 {
        default
    } else if overrides.last().0@ == column {
        overrides.last().1
    } else {
        ndv_for_column_spec(column, overrides.drop_last(), default)
    }
}

/// The Bloom filter NDV for `column`: as in a map filled from the overrides
/// in order, the last override for the column wins.
pub fn ndv_for_column(column: &str, overrides: &Vec<(String, u64)>, default: u64) -> (r: u64)
    ensures
        r == ndv_for_column_spec(column@, overrides@, default),
{
    let mut i = overrides.len();
    assert(overrides@.subrange(0, i as int) =~= overrides@);
    while i > 0
        invariant
            i <= overrides@.len(),
            ndv_for_column_spec(column@, overrides@, default) == ndv_for_column_spec(
                column@,
                overrides@.subrange(0, i as int),
                default,
            ),
        decreases i,
    {
        let ghost prefix = overrides@.subrange(0, i as int);
        if str_equal(overrides[i - 1].0.as_str(), column) {
            return overrides[i - 1].1;
        }
        assert(prefix.drop_last() =~= overrides@.subrange(0, i - 1));
        i = i - 1;
    }
    default
}

/// The columns that get Bloom filters: those asked for, then `MMSI` and
/// `IMO`, each once at its first occurrence.
pub fn bloom_column_list(requested: &Vec<String>) -> (r: Vec<String>)
    ensures
        views(r@) == first_occurrences(views(requested@) + seq!["MMSI"@, "IMO"@]),
        views(r@).no_duplicates(),
        forall|n: Seq<char>|
            views(r@).contains(n) <==> (views(requested@).contains(n) || n == "MMSI"@ || n
                == "IMO"@),
{
    let mut all: Vec<String> = Vec::new();
    let mut i: usize = 0;
    while i < requested.len()
        invariant
            i <= requested@.len(),
            views(all@) == views(requested@).take(i as int),
        decreases requested.len() - i,
    {
        all.push(String::from_str(requested[i].as_str()));
        proof {
            assert(views(requested@).take(i + 1) =~= views(requested@).take(i as int).push(
                requested@[i as int]@,
            ));
            assert(views(all@) =~= views(requested@).take(i + 1));
        }
        i = i + 1;
    }
    all.push(String::from_str("MMSI"));
    all.push(String::from_str("IMO"));
    proof {
        assert(views(requested@).take(requested@.len() as int) =~= views(requested@));
        assert(views(all@) =~= views(requested@) + seq!["MMSI"@, "IMO"@]);
        broadcast use vstd::seq_lib::group_seq_properties;
    }
    distinct_strings(&all)
}

/// `parquet::basic::ZstdLevel::try_new(level).unwrap_or_default()`, read back
/// with `compression_level()`: the parquet crate accepts the levels 1 to 22
/// and its default level is 1.
#[verifier::external_body]
fn zstd_level_or_default(level: i32) -> (r: i32)
    ensures
        r == (if 1 <= level <= 22 { level } else { 1 }),
{
    parquet::basic::ZstdLevel::try_new(level).unwrap_or_default().compression_level()
}

/// The settings of a Parquet writer, besides the Bloom filter false-positive
/// rate, which the caller sets on every Bloom filter column.
pub struct WriterPlan {
    /// The ZSTD compression level.
    pub zstd_level: i32,
    pub max_row_group_size: usize,
    /// The data page size limit, when one is set.
    pub data_page_size_limit: Option<usize>,
    /// The Bloom filter columns with their NDV; empty without Bloom filters.
    pub bloom_columns: Vec<(String, u64)>,
    /// The `created_by` key-value metadata.
    pub created_by: String,
}

/// The `created_by` metadata of every file the optimizer writes.
pub open spec fn optimizer_tag() -> Seq<char> {
    "ais-parquet-optimizer"@
}

/// The writer settings of a file without Bloom filters, compressed with ZSTD
/// at `compression_level` (parquet's default level 1 when out of range).
pub fn plain_writer_plan(row_group_size: usize, compression_level: i32, data_page_size: usize) -> (r: WriterPlan)
    ensures
        r.zstd_level == (if 1 <= compression_level <= 22 { compression_level } else { 1 }),
        r.max_row_group_size == row_group_size,
        r.data_page_size_limit == (if data_page_size > 0 { Some(data_page_size) } else { None }),
        r.bloom_columns@.len() == 0,
        r.created_by@ == optimizer_tag(),
{
    WriterPlan {
        zstd_level: zstd_level_or_default(compression_level),
        max_row_group_size: row_group_size,
        data_page_size_limit: if data_page_size > 0 {
            Some(data_page_size)
        } else {
            None
        },
        bloom_columns: Vec::new(),
        created_by: String::from_str("ais-parquet-optimizer"),
    }
}

/// The ZSTD level of the source file built from the CSV files.
pub const SOURCE_ZSTD_LEVEL: i32 = 22;

/// The writer settings of the source file built from the CSV files: the
/// strongest ZSTD level, since the source is written once and read by every
/// layout build.
pub fn source_writer_plan(row_group_size: usize, data_page_size: usize) -> (r: WriterPlan)
    ensures
        r.zstd_level == SOURCE_ZSTD_LEVEL,
        r.max_row_group_size == row_group_size,
        r.data_page_size_limit == (if data_page_size > 0 { Some(data_page_size) } else { None }),
        r.bloom_columns@.len() == 0,
        r.created_by@ == optimizer_tag(),
{
    plain_writer_plan(row_group_size, SOURCE_ZSTD_LEVEL, data_page_size)
}

/// The writer settings of a partitioned output: those of the source, plus a
/// Bloom filter on each of `bloom_columns` when `bloom` is set, with the NDV
/// that `ndv_for_column` gives.
pub fn writer_plan(
    bloom: bool,
    bloom_columns: &Vec<String>,
    row_group_size: usize,
    compression_level: i32,
    data_page_size: usize,
    bloom_ndv: u64,
    ndv_overrides: &Vec<(String, u64)>,
) -> (r: WriterPlan)
    ensures
        r.zstd_level == (if 1 <= compression_level <= 22 { compression_level } else { 1 }),
        r.max_row_group_size == row_group_size,
        r.data_page_size_limit == (if data_page_size > 0 { Some(data_page_size) } else { None }),
        r.created_by@ == optimizer_tag(),
        r.bloom_columns@.len() == (if bloom { bloom_columns@.len() } else { 0 }),
        bloom ==> forall|i: int|
            0 <= i < bloom_columns@.len() ==> (#[trigger] r.bloom_columns@[i]).0@ == bloom_columns@[i]@
                && r.bloom_columns@[i].1 == ndv_for_column_spec(
                bloom_columns@[i]@,
                ndv_overrides@,
                bloom_ndv,
            ),
{
    let mut plan = plain_writer_plan(row_group_size, compression_level, data_page_size);
    if bloom {
        let mut i: usize = 0;
        while i < bloom_columns.len()
            invariant
                i <= bloom_columns@.len(),
                plan.bloom_columns@.len() == i,
                forall|j: int|
                    0 <= j < i ==> (#[trigger] plan.bloom_columns@[j]).0@ == bloom_columns@[j]@
                        && plan.bloom_columns@[j].1 == ndv_for_column_spec(
                        bloom_columns@[j]@,
                        ndv_overrides@,
                        bloom_ndv,
                    ),
                plan.zstd_level == (if 1 <= compression_level <= 22 { compression_level } else { 1 }),
                plan.max_row_group_size == row_group_size,
                plan.data_page_size_limit == (if data_page_size > 0 { Some(data_page_size) } else { None }),
                plan.created_by@ == optimizer_tag(),
            decreases bloom_columns.len() - i,
        {
            let column = bloom_columns[i].as_str();
            let ndv = ndv_for_column(column, ndv_overrides, bloom_ndv);
            plan.bloom_columns.push((String::from_str(column), ndv));
            i = i + 1;
        }
    }
    plan
}

/// A fifth of the average number of rows per partition (a partition count of
/// 0 counts as 1), or `requested` if that is smaller.
pub open spec fn smart_row_group_size_spec(requested: int, total_rows: int, partitions: int) -> int {
    let cap = total_rows / (if partitions > 1 { partitions } else { 1 }) / 5;
    if requested <= cap {
        requested
    } else {
        cap
    }
}

/// The row-group size with smart sizing: at most a fifth of the average
/// number of rows per partition, so that a daily partition holds about five
/// row groups; never more than the size asked for.
pub fn effective_row_group_size(requested: usize, total_rows: usize, partitions: usize) -> (r: usize)
    ensures
        r == smart_row_group_size_spec(requested as int, total_rows as int, partitions as int),
        r <= requested,
        r <= total_rows as int / (if partitions > 1 { partitions as int } else { 1 }) / 5,
        r == requested || r == total_rows as int / (if partitions > 1 { partitions as int } else { 1 }) / 5,
{
    let parts = if partitions > 1 { partitions } else { 1 };
    let cap = total_rows / parts / 5;
    if requested <= cap {
        requested
    } else {
        cap
    }
}

/// `num_cpus::get()`: the number of CPUs this process may use; the crate
/// documents that it is always at least 1.
#[verifier::external_body]
fn available_cpus() -> (r: usize)
    ensures
        r >= 1,
{
    num_cpus::get()
}

/// The number of partitions processed at once: `jobs` if given, else `cpus`,
/// and at least 1.
pub fn jobs_or(jobs: Option<usize>, cpus: usize) -> (r: usize)
    ensures
        r == (match jobs {
            Some(j) => if j >= 1 { j } else { 1 },
            None => if cpus >= 1 { cpus } else { 1 },
        }),
{
    let n = match jobs {
        Some(j) => j,
        None => cpus,
    };
    if n >= 1 {
        n
    } else {
        1
    }
}

/// The number of partitions processed at once: `jobs` if given (at least 1),
/// else the number of CPUs available.
pub fn resolve_jobs(jobs: Option<usize>) -> (r: usize)
    ensures
        r >= 1,
        jobs matches Some(j) ==> r == (if j >= 1 { j } else { 1 }),
{
    match jobs {
        Some(j) => jobs_or(Some(j), 1),
        None => jobs_or(None, available_cpus()),
    }
}

} // verus!
