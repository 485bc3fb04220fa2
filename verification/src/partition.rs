//! Day partitions of the AIS table: their keys, the directory labels
//! `year=Y/month=M/day=D`, the SQL that reads one day from the source table,
//! runs of equal keys in a batch, keys read back from path components, and
//! pruning of whole partitions by a time range.
use crate::calendar::{
    day_number, days_from_civil_spec, days_in_month_spec, lemma_next_day_succ,
    lemma_previous_next_inverse, next_day, next_day_spec, previous_day, previous_day_spec, valid_date,
};
use crate::decimal::{
    decimal_string, decimal_text, parse_i32_decimal, parse_i32_spec, zero_padded_string, zero_padded_text,
};
use crate::text::{ascii_chars, bytes_start_with, has_prefix};
use vstd::utf8::encode_utf8;
use vstd::prelude::*;

verus! {

/// The calendar day a row belongs to.
#[derive(Clone, Copy, Debug, PartialEq, Eq, Structural, Hash)]
pub struct PartitionKey {
    pub year: i32,
    pub month: i32,
    pub day: i32,
}

/// `v` as `{}` writes it, as characters.
pub open spec fn dec_chars(v: int) -> Seq<char> {
    ascii_chars(decimal_text(v))
}

/// `v` as `{:0width$}` writes it, as characters.
pub open spec fn padded_chars(v: int, width: nat) -> Seq<char> {
    ascii_chars(zero_padded_text(v, width))
}

/// The directory label of a partition.
pub open spec fn label_spec(key: PartitionKey) -> Seq<char> {
    "year="@ + dec_chars(key.year as int) + "/month="@ + dec_chars(key.month as int) + "/day="@
        + dec_chars(key.day as int)
}

impl PartitionKey {
    /// `year=Y/month=M/day=D`, the relative directory of the partition.
    pub fn label(self) -> (r: String)
        ensures
            r@ == label_spec(self),
    {
        let mut s = String::from_str("year=");
        s.append(decimal_string(self.year as i64).as_str());
        s.append("/month=");
        s.append(decimal_string(self.month as i64).as_str());
        s.append("/day=");
        s.append(decimal_string(self.day as i64).as_str());
        s
    }
}

/// The timestamp literal of midnight UTC at the start of a day.
pub open spec fn date_literal_spec(year: int, month: int, day: int) -> Seq<char> {
    padded_chars(year, 4) + "-"@ + padded_chars(month, 2) + "-"@ + padded_chars(day, 2)
        + "T00:00:00Z"@
}

/// `YYYY-MM-DDT00:00:00Z`, zero-padded as `{:04}` and `{:02}` pad.
pub fn date_literal(year: i32, month: i32, day: i32) -> (r: String)
    ensures
        r@ == date_literal_spec(year as int, month as int, day as int),
{
    let mut s = zero_padded_string(year as i64, 4);
    s.append("-");
    s.append(zero_padded_string(month as i64, 2).as_str());
    s.append("-");
    s.append(zero_padded_string(day as i64, 2).as_str());
    s.append("T00:00:00Z");
    s
}

/// The day before, the day itself and the day after next all have years that
/// fit in an `i32`, so the window of `partition_select_sql` can be computed.
pub open spec fn select_window_defined(key: PartitionKey) -> bool {
    let (y, m, d) = (key.year as int, key.month as int, key.day as int);
    let n = next_day_spec(y, m, d);
    &&& d > 1 || m > 1 || y > i32::MIN
    &&& d < days_in_month_spec(y, m) || m < 12 || y < i32::MAX
    &&& n.2 < days_in_month_spec(n.0, n.1) || n.1 < 12 || n.0 < i32::MAX
}

/// The query that reads one partition's rows with their `year`, `month` and `day`
/// columns, sorted by `order_column`. The time filter spans from the day before
/// to the day after next so that the day's rows are read whatever the offset of
/// the stored timestamps; the exact day is then selected by the extracted fields.
pub open spec fn select_sql_spec(key: PartitionKey, order_column: Seq<char>) -> Seq<char> {
    let (y, m, d) = (key.year as int, key.month as int, key.day as int);
    let p = previous_day_spec(y, m, d);
    let n = next_day_spec(y, m, d);
    let a = next_day_spec(n.0, n.1, n.2);
    "SELECT *, CAST(EXTRACT(YEAR FROM \"BaseDateTime\") AS INT) AS year, CAST(EXTRACT(MONTH FROM \"BaseDateTime\") AS INT) AS month, CAST(EXTRACT(DAY FROM \"BaseDateTime\") AS INT) AS day FROM ais WHERE \"BaseDateTime\" >= '"@
        + date_literal_spec(p.0, p.1, p.2) + "' AND \"BaseDateTime\" < '"@ + date_literal_spec(
        a.0,
        a.1,
        a.2,
    ) + "' AND CAST(EXTRACT(YEAR FROM \"BaseDateTime\") AS INT) = "@ + dec_chars(y)
        + " AND CAST(EXTRACT(MONTH FROM \"BaseDateTime\") AS INT) = "@ + dec_chars(m)
        + " AND CAST(EXTRACT(DAY FROM \"BaseDateTime\") AS INT) = "@ + dec_chars(d) + " ORDER BY "@
        + order_column
}

/// The SQL that selects the rows of partition `key` from the source table `ais`.
pub fn partition_select_sql(key: PartitionKey, order_column: &str) -> (r: String)
    requires
        select_window_defined(key),
    ensures
        r@ == select_sql_spec(key, order_column@),
{
    let (prev_year, prev_month, prev_day) = previous_day(key.year, key.month, key.day);
    let (next_year, next_month, next_day_value) = next_day(key.year, key.month, key.day);
    let (after_next_year, after_next_month, after_next_day) = next_day(
        next_year,
        next_month,
        next_day_value,
    );
    let mut s = String::from_str(
        "SELECT *, CAST(EXTRACT(YEAR FROM \"BaseDateTime\") AS INT) AS year, CAST(EXTRACT(MONTH FROM \"BaseDateTime\") AS INT) AS month, CAST(EXTRACT(DAY FROM \"BaseDateTime\") AS INT) AS day FROM ais WHERE \"BaseDateTime\" >= '",
    );
    s.append(date_literal(prev_year, prev_month, prev_day).as_str());
    s.append("' AND \"BaseDateTime\" < '");
    s.append(date_literal(after_next_year, after_next_month, after_next_day).as_str());
    s.append("' AND CAST(EXTRACT(YEAR FROM \"BaseDateTime\") AS INT) = ");
    s.append(decimal_string(key.year as i64).as_str());
    s.append(" AND CAST(EXTRACT(MONTH FROM \"BaseDateTime\") AS INT) = ");
    s.append(decimal_string(key.month as i64).as_str());
    s.append(" AND CAST(EXTRACT(DAY FROM \"BaseDateTime\") AS INT) = ");
    s.append(decimal_string(key.day as i64).as_str());
    s.append(" ORDER BY ");
    s.append(order_column);
    s
}

/// `runs` cuts `0..len` into consecutive, non-empty, half-open blocks
/// `(start, end)` of equal keys, each as long as it can be within `0..len`.
pub open spec fn splits_into_runs<K>(keys: Seq<K>, len: int, runs: Seq<(usize, usize)>) -> bool {
    &&& (len == 0 <==> runs.len() == 0)
    &&& runs.len() > 0 ==> runs[0].0 == 0 && runs.last().1 == len
    &&& forall|i: int| 0 <= i < runs.len() ==> (#[trigger] runs[i]).0 < runs[i].1
    &&& forall|i: int| 0 <= i < runs.len() - 1 ==> (#[trigger] runs[i]).1 == runs[i + 1].0
    &&& forall|i: int, j: int|
        0 <= i < runs.len() && (#[trigger] runs[i]).0 <= j < runs[i].1 ==> #[trigger] keys[j]
            == keys[runs[i].0 as int]
    &&& forall|i: int| 0 <= i < runs.len() - 1 ==> keys[(#[trigger] runs[i]).1 as int] != keys[runs[i].0 as int]
}

/// `runs` cuts all of `keys` into maximal blocks of equal keys.
pub open spec fn is_run_split<K>(keys: Seq<K>, runs: Seq<(usize, usize)>) -> bool {
    splits_into_runs(keys, keys.len() as int, runs)
}

/// `runs` splits the first `offset` keys, and the key at `offset` (if any)
/// differs from the one of the last run.
pub open spec fn is_run_split_prefix<K>(keys: Seq<K>, runs: Seq<(usize, usize)>, offset: int) -> bool {
    &&& splits_into_runs(keys, offset, runs)
    &&& runs.len() > 0 && offset < keys.len() ==> keys[offset] != keys[runs.last().0 as int]
}

pub(crate) proof fn lemma_run_split_extend<K>(keys: Seq<K>, runs: Seq<(usize, usize)>, offset: int, end: int)
    requires
        0 <= offset < end <= keys.len(),
        is_run_split_prefix(keys, runs, offset),
        forall|j: int| offset <= j < end ==> #[trigger] keys[j] == keys[offset],
        end < keys.len() ==> keys[end] != keys[offset],
        offset <= usize::MAX,
        end <= usize::MAX,
    ensures
        is_run_split_prefix(keys, runs.push((offset as usize, end as usize)), end),
{
    let r2 = runs.push((offset as usize, end as usize));
    assert forall|i: int, j: int|
        0 <= i < r2.len() && (#[trigger] r2[i]).0 <= j < r2[i].1 implies #[trigger] keys[j]
        == keys[r2[i].0 as int] by {
        if i < runs.len() {
            assert(r2[i] == runs[i]);
        }
    }
    assert forall|i: int| 0 <= i < r2.len() - 1 implies keys[(#[trigger] r2[i]).1 as int]
        != keys[r2[i].0 as int] by {
        assert(r2[i] == runs[i]);
    }
    assert forall|i: int| 0 <= i < r2.len() - 1 implies (#[trigger] r2[i]).1 == r2[i + 1].0 by {
        assert(r2[i] == runs[i]);
    }
}

/// The runs of equal partition keys in a batch, in order: the slices that go to
/// one partition file each.
pub fn partition_runs(keys: &Vec<PartitionKey>) -> (runs: Vec<(usize, usize)>)
    ensures
        is_run_split(keys@, runs@),
{
    let n = keys.len();
    let mut runs: Vec<(usize, usize)> = Vec::new();
    let mut offset: usize = 0;
    while offset < n
        invariant
            n == keys@.len(),
            offset <= n,
            is_run_split_prefix(keys@, runs@, offset as int),
        decreases n - offset,
    {
        let key = keys[offset];
        let mut end = offset + 1;
        while end < n && keys[end] == key
            invariant
                n == keys@.len(),
                offset < end <= n,
                key == keys@[offset as int],
                forall|j: int| offset <= j < end ==> #[trigger] keys@[j] == key,
            decreases n - end,
        {
            end = end + 1;
        }
        proof {
            lemma_run_split_extend(keys@, runs@, offset as int, end as int);
        }
        runs.push((offset, end));
        offset = end;
    }
    runs
}

/// A half-open range of timestamps in microseconds since the Unix epoch.
#[derive(Clone, Copy, Debug, PartialEq, Eq, Structural)]
pub struct TimeRange {
    pub start_us: i64,
    pub end_us: i64,
}

/// Microseconds in a day.
pub const MICROS_PER_DAY: i64 = 86_400_000_000;

/// The day number of a partition is small enough that the microseconds of its
/// start and end fit in an `i64`.
pub open spec fn partition_day_in_range(key: PartitionKey) -> bool {
    let d = days_from_civil_spec(key.year as int, key.month as int, key.day as int);
    -106_751_991 <= d <= 106_751_990
}

/// A partition file can be skipped when its whole day lies outside the query's
/// time range.
pub open spec fn partition_skips_spec(partition: Option<PartitionKey>, time_range: Option<TimeRange>) -> bool {
    match (partition, time_range) {
        (Some(p), Some(t)) => {
            let start = days_from_civil_spec(p.year as int, p.month as int, p.day as int) * 86_400_000_000;
            start + 86_400_000_000 <= t.start_us || start >= t.end_us
        },
        _ => false,
    }
}

/// Whether the file of `partition` holds no row of `time_range`.
pub fn partition_skips(partition: Option<PartitionKey>, time_range: Option<TimeRange>) -> (r: bool)
    requires
        partition is Some && time_range is Some ==> partition_day_in_range(partition.unwrap()),
    ensures
        r == partition_skips_spec(partition, time_range),
{
    match (partition, time_range) {
        (Some(partition), Some(time_range)) => {
            let start_day = day_number(partition.year, partition.month, partition.day);
            let partition_start = start_day * MICROS_PER_DAY;
            let partition_end = partition_start + MICROS_PER_DAY;
            partition_end <= time_range.start_us || partition_start >= time_range.end_us
        },
        _ => false,
    }
}

/// The bytes of `year=`.
pub open spec fn year_tag() -> Seq<u8> {
    seq![121u8, 101, 97, 114, 61]
}

/// The bytes of `month=`.
pub open spec fn month_tag() -> Seq<u8> {
    seq![109u8, 111, 110, 116, 104, 61]
}

/// The bytes of `day=`.
pub open spec fn day_tag() -> Seq<u8> {
    seq![100u8, 97, 121, 61]
}

/// The year, month and day fields met so far along the path components: a
/// component `year=V` (or `month=V`, `day=V`) sets that field to the `i32`
/// that `V` is, or clears it when `V` is not one; later components win.
pub open spec fn scan_key_fields(components: Seq<String>) -> (Option<i32>, Option<i32>, Option<i32>)
    decreases components.len(),
{
    if components.len() == 0 {
        (None, None, None)
    } else {
        let (y, m, d) = scan_key_fields(components.drop_last());
        let c = encode_utf8(components.last()@);
        if has_prefix(c, year_tag()) {
            (parse_i32_spec(c.subrange(5, c.len() as int)), m, d)
        } else if has_prefix(c, month_tag()) {
            (y, parse_i32_spec(c.subrange(6, c.len() as int)), d)
        } else if has_prefix(c, day_tag()) {
            (y, m, parse_i32_spec(c.subrange(4, c.len() as int)))
        } else {
            (y, m, d)
        }
    }
}

/// The partition key named by the components of a file path, when all three
/// fields are set.
pub open spec fn key_from_components(components: Seq<String>) -> Option<PartitionKey> {
    match scan_key_fields(components) {
        (Some(year), Some(month), Some(day)) => Some(PartitionKey { year, month, day }),
        _ => None,
    }
}

/// The partition key of a file from the components of its path, such as
/// `partition_parquet`, `year=2024`, `month=10`, `day=20`, `part-00000.parquet`.
pub fn parse_partition_key(components: &Vec<String>) -> (r: Option<PartitionKey>)
    ensures
        r == key_from_components(components@),
{
    let year_prefix: [u8; 5] = [121, 101, 97, 114, 61];
    let month_prefix: [u8; 6] = [109, 111, 110, 116, 104, 61];
    let day_prefix: [u8; 4] = [100, 97, 121, 61];
    assert(year_prefix@ =~= year_tag());
    assert(month_prefix@ =~= month_tag());
    assert(day_prefix@ =~= day_tag());
    let mut year: Option<i32> = None;
    let mut month: Option<i32> = None;
    let mut day: Option<i32> = None;
    let mut i: usize = 0;
    while i < components.len()
        invariant
            i <= components@.len(),
            year_prefix@ == year_tag(),
            month_prefix@ == month_tag(),
            day_prefix@ == day_tag(),
            (year, month, day) == scan_key_fields(components@.subrange(0, i as int)),
        decreases components.len() - i,
    {
        let b = components[i].as_str().as_bytes();
        if bytes_start_with(b, &year_prefix) {
            year = parse_i32_decimal(b, 5, b.len());
        } else if bytes_start_with(b, &month_prefix) {
            month = parse_i32_decimal(b, 6, b.len());
        } else if bytes_start_with(b, &day_prefix) {
            day = parse_i32_decimal(b, 4, b.len());
        }
        proof {
            assert(components@.subrange(0, i + 1).drop_last() =~= components@.subrange(0, i as int));
        }
        i = i + 1;
    }
    proof {
        assert(components@.subrange(0, components@.len() as int) =~= components@);
    }
    match (year, month, day) {
        (Some(year), Some(month), Some(day)) => Some(PartitionKey { year, month, day }),
        _ => None,
    }
}

/// Pruning by partition never drops a matching row: a row whose timestamp
/// falls on the partition's day and within the time range keeps the
/// partition's file.
pub proof fn lemma_partition_pruning_sound(key: PartitionKey, time_range: TimeRange, micros: int)
    requires
        micros / 86_400_000_000 == days_from_civil_spec(key.year as int, key.month as int, key.day as int),
        time_range.start_us <= micros < time_range.end_us,
    ensures
        !partition_skips_spec(Some(key), Some(time_range)),
{
    let d = days_from_civil_spec(key.year as int, key.month as int, key.day as int);
    vstd::arithmetic::div_mod::lemma_fundamental_div_mod(micros, 86_400_000_000);
    assert(d * 86_400_000_000 <= micros < d * 86_400_000_000 + 86_400_000_000);
}

/// Law: a partition whose day holds no instant of a nonempty time range is
/// skipped: when every microsecond of the day lies before the range's start
/// or at or after its end, the partition's file is not read.
pub proof fn lemma_partition_pruning_complete(key: PartitionKey, time_range: TimeRange)
    requires
        time_range.start_us < time_range.end_us,
        forall|micros: int|
            #![trigger micros / 86_400_000_000]
            micros / 86_400_000_000 == days_from_civil_spec(key.year as int, key.month as int, key.day as int) ==> !(
            time_range.start_us <= micros < time_range.end_us),
    ensures
        partition_skips_spec(Some(key), Some(time_range)),
{
    let d = days_from_civil_spec(key.year as int, key.month as int, key.day as int);
    let start = d * 86_400_000_000;
    if !(start + 86_400_000_000 <= time_range.start_us || start >= time_range.end_us) {
        let w: int = if time_range.start_us > start { time_range.start_us as int } else { start };
        vstd::arithmetic::div_mod::lemma_fundamental_div_mod_converse(w, 86_400_000_000, d, w - start);
        assert(w / 86_400_000_000 == d);
    }
}

/// Whether `partition_select_sql` can compute the window of `key`: the
/// neighbouring days have years that fit in an `i32`.
pub fn select_window_in_range(key: PartitionKey) -> (r: bool)
    ensures
        r == select_window_defined(key),
{
    let before_ok = key.day > 1 || key.month > 1 || key.year > i32::MIN;
    let next_ok = key.day < crate::calendar::days_in_month(key.year, key.month) || key.month < 12
        || key.year < i32::MAX;
    if !(before_ok && next_ok) {
        return false;
    }
    let (y, m, d) = next_day(key.year, key.month, key.day);
    d < crate::calendar::days_in_month(y, m) || m < 12 || y < i32::MAX
}

/// Whether the day of `key` is near enough to 1970 for `partition_skips`.
pub fn partition_day_in_range_exec(key: PartitionKey) -> (r: bool)
    ensures
        r == partition_day_in_range(key),
{
    let d = day_number(key.year, key.month, key.day);
    -106_751_991 <= d && d <= 106_751_990
}

/// The path component `year=Y` of a partition directory.
pub open spec fn year_component(key: PartitionKey) -> Seq<char> {
    "year="@ + dec_chars(key.year as int)
}

/// The path component `month=M` of a partition directory.
pub open spec fn month_component(key: PartitionKey) -> Seq<char> {
    "month="@ + dec_chars(key.month as int)
}

/// The path component `day=D` of a partition directory.
pub open spec fn day_component(key: PartitionKey) -> Seq<char> {
    "day="@ + dec_chars(key.day as int)
}

proof fn lemma_ascii_text_bytes(tag: Seq<char>, tag_bytes: Seq<u8>, v: int)
    requires
        tag.len() == tag_bytes.len(),
        forall|i: int| 0 <= i < tag.len() ==> '\0' <= #[trigger] tag[i] <= '\u{7f}' && tag[i] as u8 == tag_bytes[i],
    ensures
        encode_utf8(tag + dec_chars(v)) == tag_bytes + decimal_text(v),
{
    let t = decimal_text(v);
    let m: nat = if v < 0 { (-v) as nat } else { v as nat };
    crate::decimal::lemma_decimal_digits_ascii(m);
    assert forall|i: int| 0 <= i < t.len() implies #[trigger] t[i] < 128 by {
        if v < 0 && i == 0 {
        } else if v < 0 {
            assert(t[i] == crate::decimal::decimal_digits(m)[i - 1]);
        } else {
            assert(t[i] == crate::decimal::decimal_digits(m)[i]);
        }
    }
    let cs = tag + dec_chars(v);
    assert(vstd::utf8::is_ascii_chars(cs)) by {
        assert forall|i: int| 0 <= i < cs.len() implies '\0' <= #[trigger] cs[i] <= '\u{7f}' by {
            if i >= tag.len() {
                assert(cs[i] == (t[i - tag.len()] as char));
            } else {
                assert(cs[i] == tag[i]);
            }
        }
    }
    vstd::utf8::is_ascii_chars_encode_utf8(cs);
    assert(encode_utf8(cs) =~= tag_bytes + t) by {
        assert forall|i: int| 0 <= i < cs.len() implies #[trigger] encode_utf8(cs)[i] == (tag_bytes + t)[i] by {
            assert(cs[i] as u8 == encode_utf8(cs)[i]);
            if i >= tag.len() {
                assert(cs[i] == (t[i - tag.len()] as char));
            }
        }
    }
}

/// The field of a tagged component reads back as the value written.
proof fn lemma_component_field(tag: Seq<char>, tag_bytes: Seq<u8>, v: i32)
    requires
        tag.len() == tag_bytes.len(),
        forall|i: int| 0 <= i < tag.len() ==> '\0' <= #[trigger] tag[i] <= '\u{7f}' && tag[i] as u8 == tag_bytes[i],
    ensures
        has_prefix(encode_utf8(tag + dec_chars(v as int)), tag_bytes),
        parse_i32_spec(encode_utf8(tag + dec_chars(v as int)).subrange(
            tag_bytes.len() as int,
            encode_utf8(tag + dec_chars(v as int)).len() as int,
        )) == Some(v),
{
    lemma_ascii_text_bytes(tag, tag_bytes, v as int);
    let e = encode_utf8(tag + dec_chars(v as int));
    assert(e.subrange(0, tag_bytes.len() as int) =~= tag_bytes);
    assert(e.subrange(tag_bytes.len() as int, e.len() as int) =~= decimal_text(v as int));
    crate::decimal::lemma_decimal_text_reads_back(v as int);
}

/// Reading back a key from where its file was written: path components that
/// end with the `year=Y`, `month=M` and `day=D` of `label` and a file name
/// without such a tag give the key, whatever components come before.
pub proof fn lemma_label_reads_back(key: PartitionKey, components: Seq<String>)
    requires
        components.len() >= 4,
        components[components.len() - 4]@ == year_component(key),
        components[components.len() - 3]@ == month_component(key),
        components[components.len() - 2]@ == day_component(key),
        !has_prefix(encode_utf8(components.last()@), year_tag()),
        !has_prefix(encode_utf8(components.last()@), month_tag()),
        !has_prefix(encode_utf8(components.last()@), day_tag()),
    ensures
        key_from_components(components) == Some(key),
{
    reveal_strlit("year=");
    reveal_strlit("month=");
    reveal_strlit("day=");
    lemma_component_field("year="@, year_tag(), key.year);
    lemma_component_field("month="@, month_tag(), key.month);
    lemma_component_field("day="@, day_tag(), key.day);
    let c1 = components.drop_last();
    let c2 = c1.drop_last();
    let c3 = c2.drop_last();
    let ey = encode_utf8(year_component(key));
    let em = encode_utf8(month_component(key));
    let ed = encode_utf8(day_component(key));
    assert(c3.last() == components[components.len() - 4]);
    assert(c2.last() == components[components.len() - 3]);
    assert(c1.last() == components[components.len() - 2]);
    assert(em[0] == 109u8);
    assert(!has_prefix(em, year_tag())) by {
        if has_prefix(em, year_tag()) {
            assert(em.subrange(0, 5)[0] == em[0]);
        }
    }
    assert(ed[0] == 100u8);
    assert(!has_prefix(ed, year_tag())) by {
        if has_prefix(ed, year_tag()) {
            assert(ed.subrange(0, 5)[0] == ed[0]);
        }
    }
    assert(!has_prefix(ed, month_tag())) by {
        if has_prefix(ed, month_tag()) {
            assert(ed.subrange(0, 6)[0] == ed[0]);
        }
    }
    let s3 = scan_key_fields(c3);
    assert(s3.0 == Some(key.year));
    let s2 = scan_key_fields(c2);
    assert(s2.0 == Some(key.year) && s2.1 == Some(key.month));
    let s1 = scan_key_fields(c1);
    assert(s1 == (Some(key.year), Some(key.month), Some(key.day)));
    assert(scan_key_fields(components) == s1);
}

/// The time window of `partition_select_sql` holds the whole day of a valid
/// partition and one day on each side: it starts at midnight of the day
/// before and ends at midnight of the day after next.
pub proof fn lemma_select_window_covers_day(key: PartitionKey)
    requires
        valid_date(key.year as int, key.month as int, key.day as int),
    ensures
        ({
            let (y, m, d) = (key.year as int, key.month as int, key.day as int);
            let p = previous_day_spec(y, m, d);
            let n = next_day_spec(y, m, d);
            let a = next_day_spec(n.0, n.1, n.2);
            &&& days_from_civil_spec(p.0, p.1, p.2) == days_from_civil_spec(y, m, d) - 1
            &&& days_from_civil_spec(a.0, a.1, a.2) == days_from_civil_spec(y, m, d) + 2
        }),
{
    let (y, m, d) = (key.year as int, key.month as int, key.day as int);
    let p = previous_day_spec(y, m, d);
    let n = next_day_spec(y, m, d);
    lemma_previous_next_inverse(y, m, d);
    lemma_next_day_succ(p.0, p.1, p.2);
    lemma_next_day_succ(y, m, d);
    lemma_next_day_succ(n.0, n.1, n.2);
}

} // verus!
