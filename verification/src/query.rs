//! Benchmark queries over the AIS layouts: their operation and filters, and
//! the columns a query reads.
//!
//! Latitude/longitude range bounds are floating point and stay with the
//! caller: a query here records only which columns it ranges over, and the
//! caller hands in whether the range filters exclude a row group or a row.
use crate::partition::TimeRange;
use crate::text::{distinct_strings, first_occurrences, views};
use crate::timestamps::{hour_start_us, hour_stamp_valid_spec, hour_us_spec, lemma_hour_bound_2024, parse_hour_us};
use vstd::prelude::*;
use vstd::utf8::encode_utf8;

verus! {

/// What a query computes over its matching rows.
#[derive(Clone, Copy, Debug, PartialEq, Eq, Structural)]
pub enum Operation {
    Count,
    Rows,
    GroupByVesselType,
    CountByDay,
    DistinctMmsi,
}

/// How a string filter compares a column value with its pattern.
#[derive(Clone, Copy, Debug, PartialEq, Eq, Structural)]
pub enum StringMatchKind {
    Prefix,
    Substring,
}

/// A `LIKE 'pattern%'` or `LIKE '%pattern%'` filter.
pub struct StringMatch {
    pub column: String,
    pub pattern: String,
    pub kind: StringMatchKind,
}

/// A benchmark query: a name, a category, an operation and its filters.
pub struct QueryDef {
    pub name: String,
    pub category: String,
    pub operation: Operation,
    /// `column = value` on string columns.
    pub equalities: Vec<(String, String)>,
    /// `column IN (values)` on string columns.
    pub in_filters: Vec<(String, Vec<String>)>,
    /// `column = value` on `Int64` columns.
    pub equalities_i64: Vec<(String, i64)>,
    /// `column IN (values)` on `Int64` columns.
    pub in_filters_i64: Vec<(String, Vec<i64>)>,
    /// The columns of the `BETWEEN` filters, in order.
    pub range_columns: Vec<String>,
    /// `BaseDateTime` in `[start, end)`.
    pub time_range: Option<TimeRange>,
    pub string_match: Option<StringMatch>,
}

/// A query as plain values: its texts by their characters, its `IN` lists
/// as sequences, and its time range as the microseconds of its bounds.
pub struct QueryValue {
    pub name: Seq<char>,
    pub category: Seq<char>,
    pub operation: Operation,
    pub equalities: Seq<(Seq<char>, Seq<char>)>,
    pub in_filters: Seq<(Seq<char>, Seq<Seq<char>>)>,
    pub equalities_i64: Seq<(Seq<char>, i64)>,
    pub in_filters_i64: Seq<(Seq<char>, Seq<i64>)>,
    pub range_columns: Seq<Seq<char>>,
    pub time_range: Option<(int, int)>,
    pub string_match: Option<(Seq<char>, Seq<char>, StringMatchKind)>,
}

impl View for QueryDef {
    type V = QueryValue;

    open spec fn view(&self) -> QueryValue {
        QueryValue {
            name: self.name@,
            category: self.category@,
            operation: self.operation,
            equalities: self.equalities@.map_values(|e: (String, String)| (e.0@, e.1@)),
            in_filters: self.in_filters@.map_values(
                |e: (String, Vec<String>)| (e.0@, e.1@.map_values(|v: String| v@)),
            ),
            equalities_i64: self.equalities_i64@.map_values(|e: (String, i64)| (e.0@, e.1)),
            in_filters_i64: self.in_filters_i64@.map_values(|e: (String, Vec<i64>)| (e.0@, e.1@)),
            range_columns: self.range_columns@.map_values(|c: String| c@),
            time_range: match self.time_range {
                Some(t) => Some((t.start_us as int, t.end_us as int)),
                None => None,
            },
            string_match: match self.string_match {
                Some(m) => Some((m.column@, m.pattern@, m.kind)),
                None => None,
            },
        }
    }
}

impl QueryValue {
    /// A query named `name` in `category` with no filter.
    pub open spec fn new(name: Seq<char>, category: Seq<char>, operation: Operation) -> QueryValue {
        QueryValue {
            name,
            category,
            operation,
            equalities: Seq::empty(),
            in_filters: Seq::empty(),
            equalities_i64: Seq::empty(),
            in_filters_i64: Seq::empty(),
            range_columns: Seq::empty(),
            time_range: None,
            string_match: None,
        }
    }

    /// With `column = value` on a string column added.
    pub open spec fn with_eq(self, column: Seq<char>, value: Seq<char>) -> QueryValue {
        QueryValue { equalities: self.equalities.push((column, value)), ..self }
    }

    /// With `column IN (values)` on a string column added.
    pub open spec fn with_isin(self, column: Seq<char>, values: Seq<Seq<char>>) -> QueryValue {
        QueryValue { in_filters: self.in_filters.push((column, values)), ..self }
    }

    /// With `column = value` on an `Int64` column added.
    pub open spec fn with_eq_i64(self, column: Seq<char>, value: i64) -> QueryValue {
        QueryValue { equalities_i64: self.equalities_i64.push((column, value)), ..self }
    }

    /// With `column IN (values)` on an `Int64` column added.
    pub open spec fn with_isin_i64(self, column: Seq<char>, values: Seq<i64>) -> QueryValue {
        QueryValue { in_filters_i64: self.in_filters_i64.push((column, values)), ..self }
    }

    /// With a range filter on `column` added.
    pub open spec fn with_range(self, column: Seq<char>) -> QueryValue {
        QueryValue { range_columns: self.range_columns.push(column), ..self }
    }

    /// With the time range `[start_us, end_us)`.
    pub open spec fn with_time(self, start_us: int, end_us: int) -> QueryValue {
        QueryValue { time_range: Some((start_us, end_us)), ..self }
    }

    /// With the string filter `column LIKE pattern` of the given kind.
    pub open spec fn with_match(self, column: Seq<char>, pattern: Seq<char>, kind: StringMatchKind) -> QueryValue {
        QueryValue { string_match: Some((column, pattern, kind)), ..self }
    }
}

/// A query named `name` in `category` with no filter yet.
pub fn q(name: &str, category: &str, operation: Operation) -> (r: QueryDef)
    ensures
        r.name@ == name@,
        r.category@ == category@,
        r.operation == operation,
        r.equalities@.len() == 0,
        r.in_filters@.len() == 0,
        r.equalities_i64@.len() == 0,
        r.in_filters_i64@.len() == 0,
        r.range_columns@.len() == 0,
        r.time_range is None,
        r.string_match is None,
        r@ == QueryValue::new(name@, category@, operation),
{
    let r = QueryDef {
        name: String::from_str(name),
        category: String::from_str(category),
        operation,
        equalities: Vec::new(),
        in_filters: Vec::new(),
        equalities_i64: Vec::new(),
        in_filters_i64: Vec::new(),
        range_columns: Vec::new(),
        time_range: None,
        string_match: None,
    };
    assert(r@.equalities =~= Seq::empty());
    assert(r@.in_filters =~= Seq::empty());
    assert(r@.equalities_i64 =~= Seq::empty());
    assert(r@.in_filters_i64 =~= Seq::empty());
    assert(r@.range_columns =~= Seq::empty());
    r
}

impl QueryDef {
    /// Adds `column = value` on a string column.
    pub fn eq(self, column: &str, value: &str) -> (r: Self)
        ensures
            r.equalities@.len() == self.equalities@.len() + 1,
            r.equalities@.drop_last() == self.equalities@,
            r.equalities@.last().0@ == column@,
            r.equalities@.last().1@ == value@,
            r == (QueryDef { equalities: r.equalities, ..self }),
            r@ == self@.with_eq(column@, value@),
    {
        let mut r = self;
        r.equalities.push((String::from_str(column), String::from_str(value)));
        assert(r@.equalities =~= self@.equalities.push(r@.equalities.last()));
        r
    }

    /// Adds `column IN (values)` on a string column.
    pub fn isin(self, column: &str, values: Vec<String>) -> (r: Self)
        ensures
            r.in_filters@.drop_last() == self.in_filters@,
            r.in_filters@.len() == self.in_filters@.len() + 1,
            r.in_filters@.last().0@ == column@,
            r.in_filters@.last().1 == values,
            r == (QueryDef { in_filters: r.in_filters, ..self }),
            r@ == self@.with_isin(column@, values@.map_values(|v: String| v@)),
    {
        let mut r = self;
        r.in_filters.push((String::from_str(column), values));
        assert(r@.in_filters =~= self@.in_filters.push(r@.in_filters.last()));
        r
    }

    /// Adds `column = value` on an `Int64` column.
    pub fn eq_i64(self, column: &str, value: i64) -> (r: Self)
        ensures
            r.equalities_i64@.drop_last() == self.equalities_i64@,
            r.equalities_i64@.len() == self.equalities_i64@.len() + 1,
            r.equalities_i64@.last().0@ == column@,
            r.equalities_i64@.last().1 == value,
            r == (QueryDef { equalities_i64: r.equalities_i64, ..self }),
            r@ == self@.with_eq_i64(column@, value),
    {
        let mut r = self;
        r.equalities_i64.push((String::from_str(column), value));
        assert(r@.equalities_i64 =~= self@.equalities_i64.push(r@.equalities_i64.last()));
        r
    }

    /// Adds `column IN (values)` on an `Int64` column.
    pub fn isin_i64(self, column: &str, values: Vec<i64>) -> (r: Self)
        ensures
            r.in_filters_i64@.drop_last() == self.in_filters_i64@,
            r.in_filters_i64@.len() == self.in_filters_i64@.len() + 1,
            r.in_filters_i64@.last().0@ == column@,
            r.in_filters_i64@.last().1 == values,
            r == (QueryDef { in_filters_i64: r.in_filters_i64, ..self }),
            r@ == self@.with_isin_i64(column@, values@),
    {
        let mut r = self;
        r.in_filters_i64.push((String::from_str(column), values));
        assert(r@.in_filters_i64 =~= self@.in_filters_i64.push(r@.in_filters_i64.last()));
        r
    }

    /// Adds a range filter on `column`; its bounds are kept by the caller.
    pub fn range(self, column: &str) -> (r: Self)
        ensures
            r.range_columns@.drop_last() == self.range_columns@,
            r.range_columns@.len() == self.range_columns@.len() + 1,
            r.range_columns@.last()@ == column@,
            r == (QueryDef { range_columns: r.range_columns, ..self }),
            r@ == self@.with_range(column@),
    {
        let mut r = self;
        r.range_columns.push(String::from_str(column));
        assert(r@.range_columns =~= self@.range_columns.push(r@.range_columns.last()));
        r
    }

    /// Sets the time range from the start of hour `start` to the start of
    /// hour `end`, both written `YYYY-MM-DD hh`.
    pub fn time(self, start: &str, end: &str) -> (r: Self)
        requires
            hour_stamp_valid_spec(encode_utf8(start@)),
            hour_stamp_valid_spec(encode_utf8(end@)),
        ensures
            r.time_range matches Some(t) && t.start_us == hour_us_spec(encode_utf8(start@))
                && t.end_us == hour_us_spec(encode_utf8(end@)),
            r == (QueryDef { time_range: r.time_range, ..self }),
            r@ == self@.with_time(hour_us_spec(encode_utf8(start@)), hour_us_spec(encode_utf8(end@))),
    {
        let mut r = self;
        r.time_range = Some(TimeRange { start_us: parse_hour_us(start), end_us: parse_hour_us(end) });
        r
    }

    /// Sets a prefix filter `column LIKE 'pattern%'`.
    pub fn string_prefix(self, column: &str, pattern: &str) -> (r: Self)
        ensures
            r.string_match is Some,
            r.string_match.unwrap().column@ == column@,
            r.string_match.unwrap().pattern@ == pattern@,
            r.string_match.unwrap().kind == StringMatchKind::Prefix,
            r == (QueryDef { string_match: r.string_match, ..self }),
            r@ == self@.with_match(column@, pattern@, StringMatchKind::Prefix),
    {
        let mut r = self;
        r.string_match = Some(
            StringMatch {
                column: String::from_str(column),
                pattern: String::from_str(pattern),
                kind: StringMatchKind::Prefix,
            },
        );
        r
    }

    /// Sets a substring filter `column LIKE '%pattern%'`.
    pub fn string_substring(self, column: &str, pattern: &str) -> (r: Self)
        ensures
            r.string_match is Some,
            r.string_match.unwrap().column@ == column@,
            r.string_match.unwrap().pattern@ == pattern@,
            r.string_match.unwrap().kind == StringMatchKind::Substring,
            r == (QueryDef { string_match: r.string_match, ..self }),
            r@ == self@.with_match(column@, pattern@, StringMatchKind::Substring),
    {
        let mut r = self;
        r.string_match = Some(
            StringMatch {
                column: String::from_str(column),
                pattern: String::from_str(pattern),
                kind: StringMatchKind::Substring,
            },
        );
        r
    }
}

/// The query has no filter at all, so every row of a kept row group matches.
pub open spec fn no_row_filter_spec(q: &QueryDef) -> bool {
    &&& q.equalities@.len() == 0
    &&& q.in_filters@.len() == 0
    &&& q.equalities_i64@.len() == 0
    &&& q.in_filters_i64@.len() == 0
    &&& q.range_columns@.len() == 0
    &&& q.time_range is None
    &&& q.string_match is None
}

/// Whether the query has no filter, so a count can be read from row-group
/// metadata without decoding rows.
pub fn query_has_no_row_filter(q: &QueryDef) -> (r: bool)
    ensures
        r == no_row_filter_spec(q),
{
    q.equalities.len() == 0 && q.in_filters.len() == 0 && q.equalities_i64.len() == 0
        && q.in_filters_i64.len() == 0 && q.range_columns.len() == 0 && q.time_range.is_none()
        && q.string_match.is_none()
}

/// The columns a query reads, in the order its parts name them (with
/// repetitions): filter columns, `BaseDateTime` for a time range or a count by
/// day, the string-match column, and the grouped column.
pub open spec fn projection_names(q: &QueryDef) -> Seq<Seq<char>> {
    q.equalities@.map_values(|e: (String, String)| e.0@) + q.in_filters@.map_values(
        |e: (String, Vec<String>)| e.0@,
    ) + q.equalities_i64@.map_values(|e: (String, i64)| e.0@) + q.in_filters_i64@.map_values(
        |e: (String, Vec<i64>)| e.0@,
    ) + views(q.range_columns@) + (if q.time_range is Some || q.operation
        == Operation::CountByDay {
        seq!["BaseDateTime"@]
    } else {
        Seq::empty()
    }) + (match q.string_match {
        Some(m) => seq![m.column@],
        None => Seq::empty(),
    }) + (match q.operation {
        Operation::GroupByVesselType => seq!["VesselType"@],
        Operation::DistinctMmsi => seq!["MMSI"@],
        _ => Seq::empty(),
    })
}

/// The distinct names of the columns the query reads, each at its first
/// occurrence; none when it reads no column at all.
pub fn projection_columns(q: &QueryDef) -> (r: Vec<String>)
    ensures
        views(r@) == first_occurrences(projection_names(q)),
        views(r@).no_duplicates(),
        forall|n: Seq<char>| views(r@).contains(n) <==> projection_names(q).contains(n),
        forall|i: int| 0 <= i < q.equalities@.len() ==> #[trigger] views(r@).contains((q.equalities@[i]).0@),
        forall|i: int| 0 <= i < q.in_filters@.len() ==> #[trigger] views(r@).contains((q.in_filters@[i]).0@),
        forall|i: int| 0 <= i < q.equalities_i64@.len() ==> #[trigger] views(r@).contains((q.equalities_i64@[i]).0@),
        forall|i: int| 0 <= i < q.in_filters_i64@.len() ==> #[trigger] views(r@).contains((q.in_filters_i64@[i]).0@),
        forall|i: int| 0 <= i < q.range_columns@.len() ==> #[trigger] views(r@).contains(q.range_columns@[i]@),
        q.time_range is Some ==> views(r@).contains("BaseDateTime"@),
        q.operation == Operation::CountByDay ==> views(r@).contains("BaseDateTime"@),
        q.string_match matches Some(m) ==> views(r@).contains(m.column@),
        q.operation == Operation::GroupByVesselType ==> views(r@).contains("VesselType"@),
        q.operation == Operation::DistinctMmsi ==> views(r@).contains("MMSI"@),
{
    let mut names: Vec<String> = Vec::new();
    let ghost a = q.equalities@.map_values(|e: (String, String)| e.0@);
    let mut i: usize = 0;
    while i < q.equalities.len()
        invariant
            i <= q.equalities@.len(),
            a == q.equalities@.map_values(|e: (String, String)| e.0@),
            views(names@) == a.take(i as int),
        decreases q.equalities.len() - i,
    {
        names.push(String::from_str(q.equalities[i].0.as_str()));
        proof {
            assert(a.take(i + 1) =~= a.take(i as int).push(a[i as int]));
        }
        i = i + 1;
    }
    assert(a.take(a.len() as int) =~= a);
    let ghost done = a;
    let ghost a = q.in_filters@.map_values(|e: (String, Vec<String>)| e.0@);
    let mut i: usize = 0;
    while i < q.in_filters.len()
        invariant
            i <= q.in_filters@.len(),
            a == q.in_filters@.map_values(|e: (String, Vec<String>)| e.0@),
            views(names@) == done + a.take(i as int),
        decreases q.in_filters.len() - i,
    {
        names.push(String::from_str(q.in_filters[i].0.as_str()));
        proof {
            assert(a.take(i + 1) =~= a.take(i as int).push(a[i as int]));
            assert(done + a.take(i + 1) =~= (done + a.take(i as int)).push(a[i as int]));
        }
        i = i + 1;
    }
    assert(a.take(a.len() as int) =~= a);
    let ghost done = done + a;
    let ghost a = q.equalities_i64@.map_values(|e: (String, i64)| e.0@);
    let mut i: usize = 0;
    while i < q.equalities_i64.len()
        invariant
            i <= q.equalities_i64@.len(),
            a == q.equalities_i64@.map_values(|e: (String, i64)| e.0@),
            views(names@) == done + a.take(i as int),
        decreases q.equalities_i64.len() - i,
    {
        names.push(String::from_str(q.equalities_i64[i].0.as_str()));
        proof {
            assert(a.take(i + 1) =~= a.take(i as int).push(a[i as int]));
            assert(done + a.take(i + 1) =~= (done + a.take(i as int)).push(a[i as int]));
        }
        i = i + 1;
    }
    assert(a.take(a.len() as int) =~= a);
    let ghost done = done + a;
    let ghost a = q.in_filters_i64@.map_values(|e: (String, Vec<i64>)| e.0@);
    let mut i: usize = 0;
    while i < q.in_filters_i64.len()
        invariant
            i <= q.in_filters_i64@.len(),
            a == q.in_filters_i64@.map_values(|e: (String, Vec<i64>)| e.0@),
            views(names@) == done + a.take(i as int),
        decreases q.in_filters_i64.len() - i,
    {
        names.push(String::from_str(q.in_filters_i64[i].0.as_str()));
        proof {
            assert(a.take(i + 1) =~= a.take(i as int).push(a[i as int]));
            assert(done + a.take(i + 1) =~= (done + a.take(i as int)).push(a[i as int]));
        }
        i = i + 1;
    }
    assert(a.take(a.len() as int) =~= a);
    let ghost done = done + a;
    let ghost a = views(q.range_columns@);
    let mut i: usize = 0;
    while i < q.range_columns.len()
        invariant
            i <= q.range_columns@.len(),
            a == views(q.range_columns@),
            views(names@) == done + a.take(i as int),
        decreases q.range_columns.len() - i,
    {
        names.push(String::from_str(q.range_columns[i].as_str()));
        proof {
            assert(a.take(i + 1) =~= a.take(i as int).push(a[i as int]));
            assert(done + a.take(i + 1) =~= (done + a.take(i as int)).push(a[i as int]));
        }
        i = i + 1;
    }
    assert(a.take(a.len() as int) =~= a);
    let ghost done = done + a;
    if q.time_range.is_some() || q.operation == Operation::CountByDay {
        names.push(String::from_str("BaseDateTime"));
    }
    if let Some(m) = &q.string_match {
        names.push(String::from_str(m.column.as_str()));
    }
    match q.operation {
        Operation::GroupByVesselType => {
            names.push(String::from_str("VesselType"));
        },
        Operation::DistinctMmsi => {
            names.push(String::from_str("MMSI"));
        },
        _ => {},
    }
    assert(views(names@) =~= projection_names(q));
    let r = distinct_strings(&names);
    proof {
        lemma_projection_reads_every_filter(q);
    }
    r
}

/// Law: every column a query reads to decide whether a row matches, or to
/// compute its result, is named among the columns it projects: the column of
/// each equality, `IN` and range filter, `BaseDateTime` for a time range or a
/// count by day, the string-match column, `VesselType` for a count by vessel
/// type and `MMSI` for a distinct count.
pub proof fn lemma_projection_reads_every_filter(q: &QueryDef)
    ensures
        forall|i: int| 0 <= i < q.equalities@.len() ==> #[trigger] projection_names(q).contains((q.equalities@[i]).0@),
        forall|i: int| 0 <= i < q.in_filters@.len() ==> #[trigger] projection_names(q).contains((q.in_filters@[i]).0@),
        forall|i: int| 0 <= i < q.equalities_i64@.len() ==> #[trigger] projection_names(q).contains((q.equalities_i64@[i]).0@),
        forall|i: int| 0 <= i < q.in_filters_i64@.len() ==> #[trigger] projection_names(q).contains((q.in_filters_i64@[i]).0@),
        forall|i: int| 0 <= i < q.range_columns@.len() ==> #[trigger] projection_names(q).contains(q.range_columns@[i]@),
        q.time_range is Some ==> projection_names(q).contains("BaseDateTime"@),
        q.operation == Operation::CountByDay ==> projection_names(q).contains("BaseDateTime"@),
        q.string_match matches Some(m) ==> projection_names(q).contains(m.column@),
        q.operation == Operation::GroupByVesselType ==> projection_names(q).contains("VesselType"@),
        q.operation == Operation::DistinctMmsi ==> projection_names(q).contains("MMSI"@),
{
    let a = q.equalities@.map_values(|e: (String, String)| e.0@);
    let b = q.in_filters@.map_values(|e: (String, Vec<String>)| e.0@);
    let c = q.equalities_i64@.map_values(|e: (String, i64)| e.0@);
    let d = q.in_filters_i64@.map_values(|e: (String, Vec<i64>)| e.0@);
    let e = views(q.range_columns@);
    let f: Seq<Seq<char>> = if q.time_range is Some || q.operation == Operation::CountByDay {
        seq!["BaseDateTime"@]
    } else {
        Seq::empty()
    };
    let g: Seq<Seq<char>> = match q.string_match {
        Some(m) => seq![m.column@],
        None => Seq::empty(),
    };
    let h: Seq<Seq<char>> = match q.operation {
        Operation::GroupByVesselType => seq!["VesselType"@],
        Operation::DistinctMmsi => seq!["MMSI"@],
        _ => Seq::empty(),
    };
    let all = projection_names(q);
    assert(all == a + b + c + d + e + f + g + h);
    let off_b = a.len() as int;
    let off_c = off_b + b.len();
    let off_d = off_c + c.len();
    let off_e = off_d + d.len();
    let off_f = off_e + e.len();
    let off_g = off_f + f.len();
    let off_h = off_g + g.len();
    assert forall|i: int| 0 <= i < q.equalities@.len() implies #[trigger] all.contains((q.equalities@[i]).0@) by {
        assert(all[i] == a[i]);
    }
    assert forall|i: int| 0 <= i < q.in_filters@.len() implies #[trigger] all.contains((q.in_filters@[i]).0@) by {
        assert(all[off_b + i] == b[i]);
    }
    assert forall|i: int| 0 <= i < q.equalities_i64@.len() implies #[trigger] all.contains(
        (q.equalities_i64@[i]).0@,
    ) by {
        assert(all[off_c + i] == c[i]);
    }
    assert forall|i: int| 0 <= i < q.in_filters_i64@.len() implies #[trigger] all.contains(
        (q.in_filters_i64@[i]).0@,
    ) by {
        assert(all[off_d + i] == d[i]);
    }
    assert forall|i: int| 0 <= i < q.range_columns@.len() implies #[trigger] all.contains(q.range_columns@[i]@) by {
        assert(all[off_e + i] == e[i]);
    }
    if q.time_range is Some || q.operation == Operation::CountByDay {
        assert(all[off_f] == f[0]);
    }
    if q.string_match is Some {
        assert(all[off_g] == g[0]);
    }
    if q.operation == Operation::GroupByVesselType || q.operation == Operation::DistinctMmsi {
        assert(all[off_h] == h[0]);
    }
}


/// The start of hour `hour` of `day` in `month` of 2024, in microseconds.
pub open spec fn hour_2024(month: int, day: int, hour: int) -> int {
    hour_start_us(2024, month, day, hour)
}

/// The 31 benchmark queries, in the order they run, each as a value; range
/// filters name their columns only, their bounds being floating point.
pub open spec fn benchmark_query_spec(i: int) -> QueryValue {
    if i == 0 {
        QueryValue::new("MMSI exact lookup"@, "Point Lookups"@, Operation::Rows).with_eq_i64("MMSI"@, 563073700)
    } else if i == 1 {
        QueryValue::new("MMSI multi lookup (5 MMSIs)"@, "Point Lookups"@, Operation::Count).with_isin_i64("MMSI"@, seq![563073700i64, 248669000i64, 367481310i64, 367776660i64, 319194000i64])
    } else if i == 2 {
        QueryValue::new("IMO exact lookup"@, "Point Lookups"@, Operation::Rows).with_eq_i64("IMO"@, 9348651)
    } else if i == 3 {
        QueryValue::new("IMO multi lookup (4 IMOs)"@, "Point Lookups"@, Operation::Count).with_isin_i64("IMO"@, seq![9348651i64, 9199323i64, 9826146i64, 9843807i64])
    } else if i == 4 {
        QueryValue::new("VesselName exact match"@, "Vessel Name / Callsign"@, Operation::Rows).with_eq("VesselName"@, "MAERSK MEMPHIS"@)
    } else if i == 5 {
        QueryValue::new("VesselName LIKE prefix"@, "Vessel Name / Callsign"@, Operation::Count).with_match("VesselName"@, "MAERSK"@, StringMatchKind::Prefix)
    } else if i == 6 {
        QueryValue::new("CallSign exact match"@, "Vessel Name / Callsign"@, Operation::Rows).with_eq("CallSign"@, "WDK6270"@)
    } else if i == 7 {
        QueryValue::new("Single day time range"@, "Time Range"@, Operation::Count).with_time(hour_2024(10, 20, 0), hour_2024(10, 21, 0))
    } else if i == 8 {
        QueryValue::new("Week-long time range"@, "Time Range"@, Operation::Count).with_time(hour_2024(10, 14, 0), hour_2024(10, 21, 0))
    } else if i == 9 {
        QueryValue::new("Month-long time range"@, "Time Range"@, Operation::Count).with_time(hour_2024(10, 1, 0), hour_2024(11, 1, 0))
    } else if i == 10 {
        QueryValue::new("Specific hour window"@, "Time Range"@, Operation::Count).with_time(hour_2024(10, 20, 4), hour_2024(10, 20, 5))
    } else if i == 11 {
        QueryValue::new("Bounding box: Gulf of Mexico"@, "Bounding Box"@, Operation::Count).with_range("LAT"@).with_range("LON"@)
    } else if i == 12 {
        QueryValue::new("Bounding box: Pacific NW (Puget Sound)"@, "Bounding Box"@, Operation::Count).with_range("LAT"@).with_range("LON"@)
    } else if i == 13 {
        QueryValue::new("Bounding box: New York Harbor"@, "Bounding Box"@, Operation::Count).with_range("LAT"@).with_range("LON"@)
    } else if i == 14 {
        QueryValue::new("Bounding box: San Diego"@, "Bounding Box"@, Operation::Count).with_range("LAT"@).with_range("LON"@)
    } else if i == 15 {
        QueryValue::new("MMSI + time range"@, "Combined Queries"@, Operation::Rows).with_eq_i64("MMSI"@, 563073700).with_time(hour_2024(10, 1, 0), hour_2024(11, 1, 0))
    } else if i == 16 {
        QueryValue::new("Bounding box + time range"@, "Combined Queries"@, Operation::Count).with_range("LAT"@).with_range("LON"@).with_time(hour_2024(10, 14, 0), hour_2024(10, 21, 0))
    } else if i == 17 {
        QueryValue::new("VesselName + time range"@, "Combined Queries"@, Operation::Rows).with_eq("VesselName"@, "MAERSK MEMPHIS"@).with_time(hour_2024(10, 1, 0), hour_2024(11, 1, 0))
    } else if i == 18 {
        QueryValue::new("VesselType + bounding box"@, "Combined Queries"@, Operation::Count).with_eq("VesselType"@, "70"@).with_range("LAT"@).with_range("LON"@)
    } else if i == 19 {
        QueryValue::new("COUNT all rows"@, "Aggregations"@, Operation::Count)
    } else if i == 20 {
        QueryValue::new("COUNT by VesselType"@, "Aggregations"@, Operation::GroupByVesselType)
    } else if i == 21 {
        QueryValue::new("COUNT by day"@, "Aggregations"@, Operation::CountByDay)
    } else if i == 22 {
        QueryValue::new("Distinct MMSI count"@, "Aggregations"@, Operation::DistinctMmsi)
    } else if i == 23 {
        QueryValue::new("Bloom test: CallSign = exact (exists)"@, "Bloom Filter Effectiveness"@, Operation::Count).with_eq("CallSign"@, "WDJ6270"@)
    } else if i == 24 {
        QueryValue::new("Bloom test: CallSign = exact (not exists)"@, "Bloom Filter Effectiveness"@, Operation::Count).with_eq("CallSign"@, "ZZZZZZZZ"@)
    } else if i == 25 {
        QueryValue::new("Bloom test: VesselName = exact (exists)"@, "Bloom Filter Effectiveness"@, Operation::Count).with_eq("VesselName"@, "MAERSK MEMPHIS"@)
    } else if i == 26 {
        QueryValue::new("Bloom test: VesselName = exact (not exists)"@, "Bloom Filter Effectiveness"@, Operation::Count).with_eq("VesselName"@, "NONEXISTENT SHIP NAME"@)
    } else if i == 27 {
        QueryValue::new("Bloom test: IMO = exact (exists)"@, "Bloom Filter Effectiveness"@, Operation::Count).with_eq_i64("IMO"@, 9348651)
    } else if i == 28 {
        QueryValue::new("Bloom test: IMO = exact (not exists)"@, "Bloom Filter Effectiveness"@, Operation::Count).with_eq_i64("IMO"@, 1)
    } else if i == 29 {
        QueryValue::new("Bloom test: CallSign LIKE prefix"@, "Bloom Filter Effectiveness"@, Operation::Count).with_match("CallSign"@, "WDK"@, StringMatchKind::Prefix)
    } else {
        QueryValue::new("Bloom test: VesselName LIKE substring"@, "Bloom Filter Effectiveness"@, Operation::Count).with_match("VesselName"@, "SPIRIT"@, StringMatchKind::Substring)
    }
}

/// The texts the time bounds of the `i`-th benchmark query are written as.
pub open spec fn benchmark_time_texts(i: int) -> Option<(Seq<char>, Seq<char>)> {
    if i == 7 {
        Some(("2024-10-20 00"@, "2024-10-21 00"@))
    } else if i == 8 {
        Some(("2024-10-14 00"@, "2024-10-21 00"@))
    } else if i == 9 {
        Some(("2024-10-01 00"@, "2024-11-01 00"@))
    } else if i == 10 {
        Some(("2024-10-20 04"@, "2024-10-20 05"@))
    } else if i == 15 {
        Some(("2024-10-01 00"@, "2024-11-01 00"@))
    } else if i == 16 {
        Some(("2024-10-14 00"@, "2024-10-21 00"@))
    } else if i == 17 {
        Some(("2024-10-01 00"@, "2024-11-01 00"@))
    } else {
        None
    }
}

/// Law: every time bound of the benchmark queries is written as a valid
/// `YYYY-MM-DD hh` text, which names the start of the hour the query's time
/// range begins or ends at.
#[verifier::rlimit(30)]
pub proof fn lemma_benchmark_time_bounds(i: int)
    requires
        0 <= i < 31,
    ensures
        benchmark_time_texts(i) matches Some((s, e)) ==> {
            &&& hour_stamp_valid_spec(encode_utf8(s))
            &&& hour_stamp_valid_spec(encode_utf8(e))
            &&& benchmark_query_spec(i).time_range == Some((hour_us_spec(encode_utf8(s)), hour_us_spec(encode_utf8(e))))
        },
        benchmark_time_texts(i) is None ==> benchmark_query_spec(i).time_range is None,
{
    reveal_strlit("2024-10-01 00");
    reveal_strlit("2024-10-14 00");
    reveal_strlit("2024-10-20 00");
    reveal_strlit("2024-10-20 04");
    reveal_strlit("2024-10-20 05");
    reveal_strlit("2024-10-21 00");
    reveal_strlit("2024-11-01 00");

    if i == 7 {
        lemma_hour_bound_2024("2024-10-20 00"@, 10, 20, 0);
        lemma_hour_bound_2024("2024-10-21 00"@, 10, 21, 0);
    }
    if i == 8 {
        lemma_hour_bound_2024("2024-10-14 00"@, 10, 14, 0);
        lemma_hour_bound_2024("2024-10-21 00"@, 10, 21, 0);
    }
    if i == 9 {
        lemma_hour_bound_2024("2024-10-01 00"@, 10, 1, 0);
        lemma_hour_bound_2024("2024-11-01 00"@, 11, 1, 0);
    }
    if i == 10 {
        lemma_hour_bound_2024("2024-10-20 04"@, 10, 20, 4);
        lemma_hour_bound_2024("2024-10-20 05"@, 10, 20, 5);
    }
    if i == 15 {
        lemma_hour_bound_2024("2024-10-01 00"@, 10, 1, 0);
        lemma_hour_bound_2024("2024-11-01 00"@, 11, 1, 0);
    }
    if i == 16 {
        lemma_hour_bound_2024("2024-10-14 00"@, 10, 14, 0);
        lemma_hour_bound_2024("2024-10-21 00"@, 10, 21, 0);
    }
    if i == 17 {
        lemma_hour_bound_2024("2024-10-01 00"@, 10, 1, 0);
        lemma_hour_bound_2024("2024-11-01 00"@, 11, 1, 0);
    }
}

/// The `i`-th benchmark query.
pub fn benchmark_query_def(i: usize) -> (r: QueryDef)
    requires
        i < 31,
    ensures
        r@ == benchmark_query_spec(i as int),
{
    match i {
        0 => q("MMSI exact lookup", "Point Lookups", Operation::Rows).eq_i64("MMSI", 563073700),
        1 => {
            let mut values: Vec<i64> = Vec::new();
            values.push(563073700);
            values.push(248669000);
            values.push(367481310);
            values.push(367776660);
            values.push(319194000);
            assert(values@ =~= seq![563073700i64, 248669000i64, 367481310i64, 367776660i64, 319194000i64]);
            q("MMSI multi lookup (5 MMSIs)", "Point Lookups", Operation::Count).isin_i64("MMSI", values)
        },
        2 => q("IMO exact lookup", "Point Lookups", Operation::Rows).eq_i64("IMO", 9348651),
        3 => {
            let mut values: Vec<i64> = Vec::new();
            values.push(9348651);
            values.push(9199323);
            values.push(9826146);
            values.push(9843807);
            assert(values@ =~= seq![9348651i64, 9199323i64, 9826146i64, 9843807i64]);
            q("IMO multi lookup (4 IMOs)", "Point Lookups", Operation::Count).isin_i64("IMO", values)
        },
        4 => q("VesselName exact match", "Vessel Name / Callsign", Operation::Rows).eq("VesselName", "MAERSK MEMPHIS"),
        5 => q("VesselName LIKE prefix", "Vessel Name / Callsign", Operation::Count).string_prefix("VesselName", "MAERSK"),
        6 => q("CallSign exact match", "Vessel Name / Callsign", Operation::Rows).eq("CallSign", "WDK6270"),
        7 => {
            proof {
                lemma_benchmark_time_bounds(7);
            }
            q("Single day time range", "Time Range", Operation::Count).time("2024-10-20 00", "2024-10-21 00")
        },
        8 => {
            proof {
                lemma_benchmark_time_bounds(8);
            }
            q("Week-long time range", "Time Range", Operation::Count).time("2024-10-14 00", "2024-10-21 00")
        },
        9 => {
            proof {
                lemma_benchmark_time_bounds(9);
            }
            q("Month-long time range", "Time Range", Operation::Count).time("2024-10-01 00", "2024-11-01 00")
        },
        10 => {
            proof {
                lemma_benchmark_time_bounds(10);
            }
            q("Specific hour window", "Time Range", Operation::Count).time("2024-10-20 04", "2024-10-20 05")
        },
        11 => q("Bounding box: Gulf of Mexico", "Bounding Box", Operation::Count).range("LAT").range("LON"),
        12 => q("Bounding box: Pacific NW (Puget Sound)", "Bounding Box", Operation::Count).range("LAT").range("LON"),
        13 => q("Bounding box: New York Harbor", "Bounding Box", Operation::Count).range("LAT").range("LON"),
        14 => q("Bounding box: San Diego", "Bounding Box", Operation::Count).range("LAT").range("LON"),
        15 => {
            proof {
                lemma_benchmark_time_bounds(15);
            }
            q("MMSI + time range", "Combined Queries", Operation::Rows).eq_i64("MMSI", 563073700).time("2024-10-01 00", "2024-11-01 00")
        },
        16 => {
            proof {
                lemma_benchmark_time_bounds(16);
            }
            q("Bounding box + time range", "Combined Queries", Operation::Count).range("LAT").range("LON").time("2024-10-14 00", "2024-10-21 00")
        },
        17 => {
            proof {
                lemma_benchmark_time_bounds(17);
            }
            q("VesselName + time range", "Combined Queries", Operation::Rows).eq("VesselName", "MAERSK MEMPHIS").time("2024-10-01 00", "2024-11-01 00")
        },
        18 => q("VesselType + bounding box", "Combined Queries", Operation::Count).eq("VesselType", "70").range("LAT").range("LON"),
        19 => q("COUNT all rows", "Aggregations", Operation::Count),
        20 => q("COUNT by VesselType", "Aggregations", Operation::GroupByVesselType),
        21 => q("COUNT by day", "Aggregations", Operation::CountByDay),
        22 => q("Distinct MMSI count", "Aggregations", Operation::DistinctMmsi),
        23 => q("Bloom test: CallSign = exact (exists)", "Bloom Filter Effectiveness", Operation::Count).eq("CallSign", "WDJ6270"),
        24 => q("Bloom test: CallSign = exact (not exists)", "Bloom Filter Effectiveness", Operation::Count).eq("CallSign", "ZZZZZZZZ"),
        25 => q("Bloom test: VesselName = exact (exists)", "Bloom Filter Effectiveness", Operation::Count).eq("VesselName", "MAERSK MEMPHIS"),
        26 => q("Bloom test: VesselName = exact (not exists)", "Bloom Filter Effectiveness", Operation::Count).eq("VesselName", "NONEXISTENT SHIP NAME"),
        27 => q("Bloom test: IMO = exact (exists)", "Bloom Filter Effectiveness", Operation::Count).eq_i64("IMO", 9348651),
        28 => q("Bloom test: IMO = exact (not exists)", "Bloom Filter Effectiveness", Operation::Count).eq_i64("IMO", 1),
        29 => q("Bloom test: CallSign LIKE prefix", "Bloom Filter Effectiveness", Operation::Count).string_prefix("CallSign", "WDK"),
        _ => q("Bloom test: VesselName LIKE substring", "Bloom Filter Effectiveness", Operation::Count).string_substring("VesselName", "SPIRIT"),
    }
}

/// The 31 benchmark queries, in the order they run; the caller adds the
/// bounds of their range filters.
pub fn benchmark_query_defs() -> (r: Vec<QueryDef>)
    ensures
        r@.len() == 31,
        forall|i: int| 0 <= i < 31 ==> (#[trigger] r@[i])@ == benchmark_query_spec(i),
        forall|i: int|
            0 <= i < 31 ==> (#[trigger] benchmark_time_texts(i) matches Some((s, e)) ==> (hour_stamp_valid_spec(
                encode_utf8(s),
            ) && hour_stamp_valid_spec(encode_utf8(e)))),        forall|i: int| 0 <= i < 31 ==> named_for_its_filters(#[trigger] r@[i]@),
{
    let mut r: Vec<QueryDef> = Vec::new();
    let mut i: usize = 0;
    while i < 31
        invariant
            i <= 31,
            r@.len() == i,
            forall|j: int| 0 <= j < i ==> (#[trigger] r@[j])@ == benchmark_query_spec(j),
        decreases 31 - i,
    {
        r.push(benchmark_query_def(i));
        i = i + 1;
    }
    proof {
        assert forall|i: int| 0 <= i < 31 implies (#[trigger] benchmark_time_texts(i) matches Some((s, e)) ==> (
        hour_stamp_valid_spec(encode_utf8(s)) && hour_stamp_valid_spec(encode_utf8(e)))) by {
            lemma_benchmark_time_bounds(i);
        }
        assert forall|i: int| 0 <= i < 31 implies named_for_its_filters(#[trigger] r@[i]@) by {
            lemma_benchmark_names_describe_filters(i);
        }
    }
    r
}

/// `s` ends with `suffix`.
pub open spec fn ends_with(s: Seq<char>, suffix: Seq<char>) -> bool
    decreases suffix.len(),
{
    if suffix.len() == 0 {
        true
    } else if s.len() == 0 {
        false
    } else {
        s.last() == suffix.last() && ends_with(s.drop_last(), suffix.drop_last())
    }
}

/// `s` starts with `prefix`.
pub open spec fn starts_with(s: Seq<char>, prefix: Seq<char>) -> bool
    decreases prefix.len(),
{
    if prefix.len() == 0 {
        true
    } else if s.len() == 0 {
        false
    } else {
        s[0] == prefix[0] && starts_with(s.drop_first(), prefix.drop_first())
    }
}

/// The name and category of a benchmark query say what it filters on.
pub open spec fn named_for_its_filters(v: QueryValue) -> bool {
    &&& (v.string_match matches Some((c, p, k)) && k == StringMatchKind::Prefix) <==> ends_with(v.name, "LIKE prefix"@)
    &&& (v.string_match matches Some((c, p, k)) && k == StringMatchKind::Substring) <==> ends_with(
        v.name,
        "LIKE substring"@,
    )
    &&& v.time_range is Some <==> (ends_with(v.category, "Time Range"@) || ends_with(v.name, "time range"@))
    &&& (starts_with(v.name, "Bounding box"@) || ends_with(v.name, "bounding box"@)) ==> v.range_columns =~= seq![
        "LAT"@,
        "LON"@,
    ]
    &&& !(starts_with(v.name, "Bounding box"@) || ends_with(v.name, "bounding box"@)) ==> v.range_columns.len() == 0
    &&& v.operation == Operation::GroupByVesselType <==> ends_with(v.name, "by VesselType"@)
    &&& v.operation == Operation::CountByDay <==> ends_with(v.name, "by day"@)
    &&& v.operation == Operation::DistinctMmsi <==> starts_with(v.name, "Distinct MMSI"@)
    &&& v.in_filters_i64.len() > 0 <==> (ends_with(v.name, "MMSIs)"@) || ends_with(v.name, "IMOs)"@))
}


/// Law: the name and category of every benchmark query say what it filters
/// on. A name ending in `LIKE prefix` (`LIKE substring`) goes with a prefix
/// (substring) string match, and no other query has one; a query of the
/// `Time Range` category, or whose name ends in `time range`, has a time
/// range, and no other does; a name starting `Bounding box` or ending
/// `bounding box` goes with range filters on `LAT` and `LON`, in that order,
/// and no other query has range filters. The count by vessel type, the count
/// by day and the distinct MMSI count are the queries named so, and the
/// queries whose names end in a count of MMSIs or IMOs are those with an
/// `Int64` `IN` list.
#[verifier::rlimit(60)]
pub proof fn lemma_benchmark_names_describe_filters(i: int)
    requires
        0 <= i < 31,
    ensures
        named_for_its_filters(benchmark_query_spec(i)),
{
    reveal_strlit("LIKE prefix");
    reveal_strlit("LIKE substring");
    reveal_strlit("time range");
    reveal_strlit("Time Range");
    reveal_strlit("Bounding box");
    reveal_strlit("bounding box");
    reveal_strlit("LAT");
    reveal_strlit("LON");
    reveal_strlit("by VesselType");
    reveal_strlit("by day");
    reveal_strlit("Distinct MMSI");
    reveal_strlit("MMSIs)");
    reveal_strlit("IMOs)");
    reveal_with_fuel(ends_with, 16);
    reveal_with_fuel(starts_with, 14);
    if i == 0 {
        reveal_strlit("MMSI exact lookup");
        reveal_strlit("Point Lookups");
        assert(named_for_its_filters(benchmark_query_spec(0)));
    } else if i == 1 {
        reveal_strlit("MMSI multi lookup (5 MMSIs)");
        reveal_strlit("Point Lookups");
        assert(named_for_its_filters(benchmark_query_spec(1)));
    } else if i == 2 {
        reveal_strlit("IMO exact lookup");
        reveal_strlit("Point Lookups");
        assert(named_for_its_filters(benchmark_query_spec(2)));
    } else if i == 3 {
        reveal_strlit("IMO multi lookup (4 IMOs)");
        reveal_strlit("Point Lookups");
        assert(named_for_its_filters(benchmark_query_spec(3)));
    } else if i == 4 {
        reveal_strlit("VesselName exact match");
        reveal_strlit("Vessel Name / Callsign");
        assert(named_for_its_filters(benchmark_query_spec(4)));
    } else if i == 5 {
        reveal_strlit("VesselName LIKE prefix");
        reveal_strlit("Vessel Name / Callsign");
        assert(named_for_its_filters(benchmark_query_spec(5)));
    } else if i == 6 {
        reveal_strlit("CallSign exact match");
        reveal_strlit("Vessel Name / Callsign");
        assert(named_for_its_filters(benchmark_query_spec(6)));
    } else if i == 7 {
        reveal_strlit("Single day time range");
        reveal_strlit("Time Range");
        assert(named_for_its_filters(benchmark_query_spec(7)));
    } else if i == 8 {
        reveal_strlit("Week-long time range");
        reveal_strlit("Time Range");
        assert(named_for_its_filters(benchmark_query_spec(8)));
    } else if i == 9 {
        reveal_strlit("Month-long time range");
        reveal_strlit("Time Range");
        assert(named_for_its_filters(benchmark_query_spec(9)));
    } else if i == 10 {
        reveal_strlit("Specific hour window");
        reveal_strlit("Time Range");
        assert(named_for_its_filters(benchmark_query_spec(10)));
    } else if i == 11 {
        reveal_strlit("Bounding box: Gulf of Mexico");
        reveal_strlit("Bounding Box");
        assert(named_for_its_filters(benchmark_query_spec(11)));
    } else if i == 12 {
        reveal_strlit("Bounding box: Pacific NW (Puget Sound)");
        reveal_strlit("Bounding Box");
        assert(named_for_its_filters(benchmark_query_spec(12)));
    } else if i == 13 {
        reveal_strlit("Bounding box: New York Harbor");
        reveal_strlit("Bounding Box");
        assert(named_for_its_filters(benchmark_query_spec(13)));
    } else if i == 14 {
        reveal_strlit("Bounding box: San Diego");
        reveal_strlit("Bounding Box");
        assert(named_for_its_filters(benchmark_query_spec(14)));
    } else if i == 15 {
        reveal_strlit("MMSI + time range");
        reveal_strlit("Combined Queries");
        assert(named_for_its_filters(benchmark_query_spec(15)));
    } else if i == 16 {
        reveal_strlit("Bounding box + time range");
        reveal_strlit("Combined Queries");
        assert(named_for_its_filters(benchmark_query_spec(16)));
    } else if i == 17 {
        reveal_strlit("VesselName + time range");
        reveal_strlit("Combined Queries");
        assert(named_for_its_filters(benchmark_query_spec(17)));
    } else if i == 18 {
        reveal_strlit("VesselType + bounding box");
        reveal_strlit("Combined Queries");
        assert(named_for_its_filters(benchmark_query_spec(18)));
    } else if i == 19 {
        reveal_strlit("COUNT all rows");
        reveal_strlit("Aggregations");
        assert(named_for_its_filters(benchmark_query_spec(19)));
    } else if i == 20 {
        reveal_strlit("COUNT by VesselType");
        reveal_strlit("Aggregations");
        assert(named_for_its_filters(benchmark_query_spec(20)));
    } else if i == 21 {
        reveal_strlit("COUNT by day");
        reveal_strlit("Aggregations");
        assert(named_for_its_filters(benchmark_query_spec(21)));
    } else if i == 22 {
        reveal_strlit("Distinct MMSI count");
        reveal_strlit("Aggregations");
        assert(named_for_its_filters(benchmark_query_spec(22)));
    } else if i == 23 {
        reveal_strlit("Bloom test: CallSign = exact (exists)");
        reveal_strlit("Bloom Filter Effectiveness");
        assert(named_for_its_filters(benchmark_query_spec(23)));
    } else if i == 24 {
        reveal_strlit("Bloom test: CallSign = exact (not exists)");
        reveal_strlit("Bloom Filter Effectiveness");
        assert(named_for_its_filters(benchmark_query_spec(24)));
    } else if i == 25 {
        reveal_strlit("Bloom test: VesselName = exact (exists)");
        reveal_strlit("Bloom Filter Effectiveness");
        assert(named_for_its_filters(benchmark_query_spec(25)));
    } else if i == 26 {
        reveal_strlit("Bloom test: VesselName = exact (not exists)");
        reveal_strlit("Bloom Filter Effectiveness");
        assert(named_for_its_filters(benchmark_query_spec(26)));
    } else if i == 27 {
        reveal_strlit("Bloom test: IMO = exact (exists)");
        reveal_strlit("Bloom Filter Effectiveness");
        assert(named_for_its_filters(benchmark_query_spec(27)));
    } else if i == 28 {
        reveal_strlit("Bloom test: IMO = exact (not exists)");
        reveal_strlit("Bloom Filter Effectiveness");
        assert(named_for_its_filters(benchmark_query_spec(28)));
    } else if i == 29 {
        reveal_strlit("Bloom test: CallSign LIKE prefix");
        reveal_strlit("Bloom Filter Effectiveness");
        assert(named_for_its_filters(benchmark_query_spec(29)));
    } else if i == 30 {
        reveal_strlit("Bloom test: VesselName LIKE substring");
        reveal_strlit("Bloom Filter Effectiveness");
        assert(named_for_its_filters(benchmark_query_spec(30)));
    }
}

} // verus!
