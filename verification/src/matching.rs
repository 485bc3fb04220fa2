//! Matching decoded rows against a query's filters, and the tallies a query
//! reports over the rows that match.
use crate::query::{Operation, QueryDef, StringMatch, StringMatchKind};
use crate::text::{bytes_contain, bytes_start_with, contains_bytes, has_prefix, push_unique, views};
use std::collections::HashSet;
use vstd::arithmetic::div_mod::{lemma_fundamental_div_mod, lemma_fundamental_div_mod_converse};
use vstd::prelude::*;
use vstd::utf8::encode_utf8;

verus! {

/// The values that the filters of a query read from one decoded row: one
/// entry per filter, in the query's order, `None` where the column is absent
/// or the value null.
pub struct RowCells {
    pub equality_values: Vec<Option<String>>,
    pub in_values: Vec<Option<String>>,
    pub equality_i64_values: Vec<Option<i64>>,
    pub in_i64_values: Vec<Option<i64>>,
    /// `BaseDateTime` in microseconds.
    pub timestamp: Option<i64>,
    /// The value of the string-match column.
    pub match_value: Option<String>,
}

/// `cells` has one value per filter of `q`.
pub open spec fn cells_fit(q: &QueryDef, cells: &RowCells) -> bool {
    &&& cells.equality_values@.len() == q.equalities@.len()
    &&& cells.in_values@.len() == q.in_filters@.len()
    &&& cells.equality_i64_values@.len() == q.equalities_i64@.len()
    &&& cells.in_i64_values@.len() == q.in_filters_i64@.len()
}

/// The string-match filter accepts `value`.
pub open spec fn string_match_accepts(m: StringMatch, value: Seq<char>) -> bool {
    match m.kind {
        StringMatchKind::Prefix => has_prefix(encode_utf8(value), encode_utf8(m.pattern@)),
        StringMatchKind::Substring => contains_bytes(encode_utf8(value), encode_utf8(m.pattern@)),
    }
}

/// The row passes every filter of the query; `ranges_match` is whether its
/// latitude/longitude values lie within the query's range filters.
pub open spec fn row_matches_spec(q: &QueryDef, cells: &RowCells, ranges_match: bool) -> bool {
    &&& forall|i: int|
        0 <= i < q.equalities@.len() ==> (#[trigger] cells.equality_values@[i] matches Some(v)
            && v@ == q.equalities@[i].1@)
    &&& forall|i: int|
        0 <= i < q.in_filters@.len() ==> (#[trigger] cells.in_values@[i] matches Some(v) && exists|k: int|
            0 <= k < q.in_filters@[i].1@.len() && (#[trigger] q.in_filters@[i].1@[k])@ == v@)
    &&& forall|i: int|
        0 <= i < q.equalities_i64@.len() ==> #[trigger] cells.equality_i64_values@[i] == Some(
            q.equalities_i64@[i].1,
        )
    &&& forall|i: int|
        0 <= i < q.in_filters_i64@.len() ==> (#[trigger] cells.in_i64_values@[i] matches Some(v)
            && q.in_filters_i64@[i].1@.contains(v))
    &&& ranges_match
    &&& q.time_range matches Some(t) ==> (cells.timestamp matches Some(v) && t.start_us <= v
        < t.end_us)
    &&& q.string_match matches Some(m) ==> (cells.match_value matches Some(v)
        && string_match_accepts(m, v@))
}

/// Law: a string `IN` filter asks only that the row's value be one of the
/// listed values, whichever one: two rows that differ only in their value
/// for `IN` filter `i`, each value equal to some listed value, either both
/// match the query or neither does.
pub proof fn lemma_in_filter_any_listed_value(
    q: &QueryDef,
    c1: &RowCells,
    c2: &RowCells,
    ranges_match: bool,
    i: int,
    k1: int,
    k2: int,
)
    requires
        cells_fit(q, c1),
        cells_fit(q, c2),
        0 <= i < q.in_filters@.len(),
        0 <= k1 < q.in_filters@[i].1@.len(),
        0 <= k2 < q.in_filters@[i].1@.len(),
        c1.equality_values@ == c2.equality_values@,
        c1.equality_i64_values@ == c2.equality_i64_values@,
        c1.in_i64_values@ == c2.in_i64_values@,
        c1.timestamp == c2.timestamp,
        c1.match_value == c2.match_value,
        forall|j: int| 0 <= j < q.in_filters@.len() && j != i ==> c1.in_values@[j] == c2.in_values@[j],
        c1.in_values@[i] matches Some(v1) && v1@ == q.in_filters@[i].1@[k1]@,
        c2.in_values@[i] matches Some(v2) && v2@ == q.in_filters@[i].1@[k2]@,
    ensures
        row_matches_spec(q, c1, ranges_match) == row_matches_spec(q, c2, ranges_match),
{
    assert forall|j: int| 0 <= j < q.in_filters@.len() implies ((#[trigger] c1.in_values@[j] matches Some(v)
        && exists|k: int| 0 <= k < q.in_filters@[j].1@.len() && (#[trigger] q.in_filters@[j].1@[k])@ == v@) <==> (
    c2.in_values@[j] matches Some(v) && exists|k: int|
        0 <= k < q.in_filters@[j].1@.len() && (#[trigger] q.in_filters@[j].1@[k])@ == v@)) by {
        if j == i {
            assert(q.in_filters@[j].1@[k1] == q.in_filters@[i].1@[k1]);
            assert(q.in_filters@[j].1@[k2] == q.in_filters@[i].1@[k2]);
        } else {
            assert(c1.in_values@[j] == c2.in_values@[j]);
        }
    }
    assert forall|j: int| 0 <= j < q.equalities@.len() implies #[trigger] c1.equality_values@[j] == c2.equality_values@[j] by {}
    assert forall|j: int| 0 <= j < q.equalities_i64@.len() implies #[trigger] c1.equality_i64_values@[j] == c2.equality_i64_values@[j] by {}
    assert forall|j: int| 0 <= j < q.in_filters_i64@.len() implies #[trigger] c1.in_i64_values@[j] == c2.in_i64_values@[j] by {}
}

/// Law: a row whose value for a string `IN` filter is missing, or equals
/// none of the listed values, does not match the query.
pub proof fn lemma_in_filter_rejects_unlisted(q: &QueryDef, cells: &RowCells, ranges_match: bool, i: int)
    requires
        cells_fit(q, cells),
        0 <= i < q.in_filters@.len(),
        cells.in_values@[i] matches Some(v) ==> forall|k: int|
            0 <= k < q.in_filters@[i].1@.len() ==> (#[trigger] q.in_filters@[i].1@[k])@ != v@,
    ensures
        !row_matches_spec(q, cells, ranges_match),
{
    assert(!(cells.in_values@[i] matches Some(v) && exists|k: int|
        0 <= k < q.in_filters@[i].1@.len() && (#[trigger] q.in_filters@[i].1@[k])@ == v@));
}

/// Law: an `Int64` `IN` filter asks only that the row's value be one of the
/// listed values, whichever one: two rows that differ only in their value
/// for `Int64` `IN` filter `i`, each value equal to some listed value, either
/// both match the query or neither does.
pub proof fn lemma_i64_in_filter_any_listed_value(
    q: &QueryDef,
    c1: &RowCells,
    c2: &RowCells,
    ranges_match: bool,
    i: int,
    k1: int,
    k2: int,
)
    requires
        cells_fit(q, c1),
        cells_fit(q, c2),
        0 <= i < q.in_filters_i64@.len(),
        0 <= k1 < q.in_filters_i64@[i].1@.len(),
        0 <= k2 < q.in_filters_i64@[i].1@.len(),
        c1.equality_values@ == c2.equality_values@,
        c1.in_values@ == c2.in_values@,
        c1.equality_i64_values@ == c2.equality_i64_values@,
        c1.timestamp == c2.timestamp,
        c1.match_value == c2.match_value,
        forall|j: int| 0 <= j < q.in_filters_i64@.len() && j != i ==> c1.in_i64_values@[j] == c2.in_i64_values@[j],
        c1.in_i64_values@[i] == Some(q.in_filters_i64@[i].1@[k1]),
        c2.in_i64_values@[i] == Some(q.in_filters_i64@[i].1@[k2]),
    ensures
        row_matches_spec(q, c1, ranges_match) == row_matches_spec(q, c2, ranges_match),
{
    assert forall|j: int| 0 <= j < q.in_filters_i64@.len() implies ((#[trigger] c1.in_i64_values@[j] matches Some(v)
        && q.in_filters_i64@[j].1@.contains(v)) <==> (c2.in_i64_values@[j] matches Some(v)
        && q.in_filters_i64@[j].1@.contains(v))) by {
        if j == i {
            assert(q.in_filters_i64@[j].1@[k1] == q.in_filters_i64@[i].1@[k1]);
            assert(q.in_filters_i64@[j].1@[k2] == q.in_filters_i64@[i].1@[k2]);
            assert(q.in_filters_i64@[j].1@.contains(q.in_filters_i64@[i].1@[k1]));
            assert(q.in_filters_i64@[j].1@.contains(q.in_filters_i64@[i].1@[k2]));
        } else {
            assert(c1.in_i64_values@[j] == c2.in_i64_values@[j]);
        }
    }
    assert forall|j: int| 0 <= j < q.equalities@.len() implies #[trigger] c1.equality_values@[j] == c2.equality_values@[j] by {}
    assert forall|j: int| 0 <= j < q.in_filters@.len() implies #[trigger] c1.in_values@[j] == c2.in_values@[j] by {}
    assert forall|j: int| 0 <= j < q.equalities_i64@.len() implies #[trigger] c1.equality_i64_values@[j] == c2.equality_i64_values@[j] by {}
}

/// Law: a row whose value for an `Int64` `IN` filter is missing, or is none
/// of the listed values, does not match the query.
pub proof fn lemma_i64_in_filter_rejects_unlisted(q: &QueryDef, cells: &RowCells, ranges_match: bool, i: int)
    requires
        cells_fit(q, cells),
        0 <= i < q.in_filters_i64@.len(),
        cells.in_i64_values@[i] matches Some(v) ==> !q.in_filters_i64@[i].1@.contains(v),
    ensures
        !row_matches_spec(q, cells, ranges_match),
{
    assert(!(cells.in_i64_values@[i] matches Some(v) && q.in_filters_i64@[i].1@.contains(v)));
}

/// Law: a query's time range is half open, its start included and its end
/// excluded: a row with no timestamp, or one before the start or at or after
/// the end, does not match; and two rows that differ only in their
/// timestamps, both within the range, either both match or neither does.
pub proof fn lemma_time_range_half_open(
    q: &QueryDef,
    c1: &RowCells,
    c2: &RowCells,
    ranges_match: bool,
)
    requires
        cells_fit(q, c1),
        cells_fit(q, c2),
        q.time_range is Some,
        c1.equality_values@ == c2.equality_values@,
        c1.in_values@ == c2.in_values@,
        c1.equality_i64_values@ == c2.equality_i64_values@,
        c1.in_i64_values@ == c2.in_i64_values@,
        c1.match_value == c2.match_value,
    ensures
        (c1.timestamp matches Some(v) ==> (v < q.time_range.unwrap().start_us || v >= q.time_range.unwrap().end_us))
            ==> !row_matches_spec(q, c1, ranges_match),
        (c1.timestamp matches Some(v) && q.time_range.unwrap().start_us <= v < q.time_range.unwrap().end_us) ==> (
        c2.timestamp matches Some(w) && q.time_range.unwrap().start_us <= w < q.time_range.unwrap().end_us) ==> (
        row_matches_spec(q, c1, ranges_match) == row_matches_spec(q, c2, ranges_match)),
{
    assert forall|j: int| 0 <= j < q.equalities@.len() implies #[trigger] c1.equality_values@[j] == c2.equality_values@[j] by {}
    assert forall|j: int| 0 <= j < q.in_filters@.len() implies #[trigger] c1.in_values@[j] == c2.in_values@[j] by {}
    assert forall|j: int| 0 <= j < q.equalities_i64@.len() implies #[trigger] c1.equality_i64_values@[j] == c2.equality_i64_values@[j] by {}
    assert forall|j: int| 0 <= j < q.in_filters_i64@.len() implies #[trigger] c1.in_i64_values@[j] == c2.in_i64_values@[j] by {}
}

/// Law: a prefix match asks that the row's value start with the pattern and
/// a substring match that it hold the pattern (both over UTF-8 bytes): a row
/// with no value, or one that does not, does not match; and two rows that
/// differ only in their values, both of which do, either both match or
/// neither does.
pub proof fn lemma_string_match_by_kind(q: &QueryDef, c1: &RowCells, c2: &RowCells, ranges_match: bool)
    requires
        cells_fit(q, c1),
        cells_fit(q, c2),
        q.string_match is Some,
        c1.equality_values@ == c2.equality_values@,
        c1.in_values@ == c2.in_values@,
        c1.equality_i64_values@ == c2.equality_i64_values@,
        c1.in_i64_values@ == c2.in_i64_values@,
        c1.timestamp == c2.timestamp,
    ensures
        (c1.match_value matches Some(v) ==> match q.string_match.unwrap().kind {
            StringMatchKind::Prefix => !has_prefix(encode_utf8(v@), encode_utf8(q.string_match.unwrap().pattern@)),
            StringMatchKind::Substring => !contains_bytes(
                encode_utf8(v@),
                encode_utf8(q.string_match.unwrap().pattern@),
            ),
        }) ==> !row_matches_spec(q, c1, ranges_match),
        (c1.match_value matches Some(v) && match q.string_match.unwrap().kind {
            StringMatchKind::Prefix => has_prefix(encode_utf8(v@), encode_utf8(q.string_match.unwrap().pattern@)),
            StringMatchKind::Substring => contains_bytes(encode_utf8(v@), encode_utf8(q.string_match.unwrap().pattern@)),
        }) ==> (c2.match_value matches Some(w) && match q.string_match.unwrap().kind {
            StringMatchKind::Prefix => has_prefix(encode_utf8(w@), encode_utf8(q.string_match.unwrap().pattern@)),
            StringMatchKind::Substring => contains_bytes(encode_utf8(w@), encode_utf8(q.string_match.unwrap().pattern@)),
        }) ==> (row_matches_spec(q, c1, ranges_match) == row_matches_spec(q, c2, ranges_match)),
{
    assert forall|j: int| 0 <= j < q.equalities@.len() implies #[trigger] c1.equality_values@[j] == c2.equality_values@[j] by {}
    assert forall|j: int| 0 <= j < q.in_filters@.len() implies #[trigger] c1.in_values@[j] == c2.in_values@[j] by {}
    assert forall|j: int| 0 <= j < q.equalities_i64@.len() implies #[trigger] c1.equality_i64_values@[j] == c2.equality_i64_values@[j] by {}
    assert forall|j: int| 0 <= j < q.in_filters_i64@.len() implies #[trigger] c1.in_i64_values@[j] == c2.in_i64_values@[j] by {}
}

/// Law: a row whose value for an equality filter is missing, or differs
/// from the value asked for, does not match the query, on string and on
/// `Int64` columns alike.
pub proof fn lemma_equality_filters_reject(q: &QueryDef, cells: &RowCells, ranges_match: bool)
    requires
        cells_fit(q, cells),
    ensures
        forall|i: int|
            0 <= i < q.equalities@.len() && !(#[trigger] cells.equality_values@[i] matches Some(v) && v@
                == q.equalities@[i].1@) ==> !row_matches_spec(q, cells, ranges_match),
        forall|i: int|
            0 <= i < q.equalities_i64@.len() && #[trigger] cells.equality_i64_values@[i] != Some(
                q.equalities_i64@[i].1,
            ) ==> !row_matches_spec(q, cells, ranges_match),
        !ranges_match ==> !row_matches_spec(q, cells, ranges_match),
{
}

fn string_in(values: &Vec<String>, v: &String) -> (r: bool)
    ensures
        r == exists|k: int| 0 <= k < values@.len() && (#[trigger] values@[k])@ == v@,
{
    let mut k: usize = 0;
    while k < values.len()
        invariant
            k <= values@.len(),
            forall|j: int| 0 <= j < k ==> (#[trigger] values@[j])@ != v@,
        decreases values.len() - k,
    {
        if values[k] == *v {
            assert(values@[k as int]@ == v@);
            return true;
        }
        k = k + 1;
    }
    false
}

fn i64_in(values: &Vec<i64>, v: i64) -> (r: bool)
    ensures
        r == values@.contains(v),
{
    let mut k: usize = 0;
    while k < values.len()
        invariant
            k <= values@.len(),
            forall|j: int| 0 <= j < k ==> values@[j] != v,
        decreases values.len() - k,
    {
        if values[k] == v {
            assert(values@[k as int] == v);
            return true;
        }
        k = k + 1;
    }
    false
}

/// Whether a decoded row passes every filter of the query.
pub fn row_matches(q: &QueryDef, cells: &RowCells, ranges_match: bool) -> (r: bool)
    requires
        cells_fit(q, cells),
    ensures
        r == row_matches_spec(q, cells, ranges_match),
{
    let mut i: usize = 0;
    while i < q.equalities.len()
        invariant
            cells_fit(q, cells),
            i <= q.equalities@.len(),
            forall|j: int|
                0 <= j < i ==> (#[trigger] cells.equality_values@[j] matches Some(v) && v@
                    == q.equalities@[j].1@),
        decreases q.equalities.len() - i,
    {
        match &cells.equality_values[i] {
            Some(v) => {
                if !(*v == q.equalities[i].1) {
                    return false;
                }
            },
            None => {
                return false;
            },
        }
        i = i + 1;
    }
    let mut i: usize = 0;
    while i < q.in_filters.len()
        invariant
            cells_fit(q, cells),
            i <= q.in_filters@.len(),
            forall|j: int|
                0 <= j < i ==> (#[trigger] cells.in_values@[j] matches Some(v) && exists|k: int|
                    0 <= k < q.in_filters@[j].1@.len() && (#[trigger] q.in_filters@[j].1@[k])@
                        == v@),
        decreases q.in_filters.len() - i,
    {
        match &cells.in_values[i] {
            Some(v) => {
                if !string_in(&q.in_filters[i].1, v) {
                    return false;
                }
            },
            None => {
                return false;
            },
        }
        i = i + 1;
    }
    let mut i: usize = 0;
    while i < q.equalities_i64.len()
        invariant
            cells_fit(q, cells),
            i <= q.equalities_i64@.len(),
            forall|j: int|
                0 <= j < i ==> #[trigger] cells.equality_i64_values@[j] == Some(
                    q.equalities_i64@[j].1,
                ),
        decreases q.equalities_i64.len() - i,
    {
        if cells.equality_i64_values[i] != Some(q.equalities_i64[i].1) {
            return false;
        }
        i = i + 1;
    }
    let mut i: usize = 0;
    while i < q.in_filters_i64.len()
        invariant
            cells_fit(q, cells),
            i <= q.in_filters_i64@.len(),
            forall|j: int|
                0 <= j < i ==> (#[trigger] cells.in_i64_values@[j] matches Some(v)
                    && q.in_filters_i64@[j].1@.contains(v)),
        decreases q.in_filters_i64.len() - i,
    {
        match cells.in_i64_values[i] {
            Some(v) => {
                if !i64_in(&q.in_filters_i64[i].1, v) {
                    return false;
                }
            },
            None => {
                return false;
            },
        }
        i = i + 1;
    }
    if !ranges_match {
        return false;
    }
    if let Some(time_range) = q.time_range {
        match cells.timestamp {
            Some(v) => {
                if v < time_range.start_us || v >= time_range.end_us {
                    return false;
                }
            },
            None => {
                return false;
            },
        }
    }
    if let Some(m) = &q.string_match {
        match &cells.match_value {
            Some(v) => {
                let accepted = match m.kind {
                    StringMatchKind::Prefix => bytes_start_with(
                        v.as_str().as_bytes(),
                        m.pattern.as_str().as_bytes(),
                    ),
                    StringMatchKind::Substring => bytes_contain(
                        v.as_str().as_bytes(),
                        m.pattern.as_str().as_bytes(),
                    ),
                };
                if !accepted {
                    return false;
                }
            },
            None => {
                return false;
            },
        }
    }
    true
}

/// The day (since 1970-01-01, rounding towards minus infinity) of a timestamp
/// in microseconds.
pub fn day_of_micros(micros: i64) -> (r: i64)
    ensures
        r == micros as int / 86_400_000_000,
        r * 86_400_000_000 <= micros < (r + 1) * 86_400_000_000,
{
    proof {
        lemma_fundamental_div_mod(micros as int, 86_400_000_000);
    }
    if micros >= 0 {
        micros / 86_400_000_000
    } else {
        let w: i64 = -(micros + 1);
        let q = w / 86_400_000_000;
        proof {
            let d: int = 86_400_000_000;
            lemma_fundamental_div_mod(w as int, d);
            lemma_fundamental_div_mod_converse(micros as int, d, -(q as int) - 1, d - 1 - w as int % d);
        }
        -q - 1
    }
}

/// The running result of a query over the rows that passed its filters.
pub struct QueryTally {
    /// Rows counted by `Count` and `Rows`.
    pub matched: usize,
    /// Distinct `VesselType` values seen, each once.
    pub vessel_types: Vec<String>,
    /// Distinct days of `BaseDateTime` seen.
    pub days: HashSet<i64>,
    /// Distinct `MMSI` values seen.
    pub mmsis: HashSet<i64>,
}

impl QueryTally {
    /// The tally has each vessel type at most once.
    pub open spec fn well_formed(&self) -> bool {
        views(self.vessel_types@).no_duplicates()
    }

    /// The set of vessel types seen.
    pub open spec fn vessel_type_set(&self) -> Set<Seq<char>> {
        views(self.vessel_types@).to_set()
    }

    /// A tally of nothing.
    pub fn new() -> (r: Self)
        ensures
            r.well_formed(),
            r.matched == 0,
            r.vessel_type_set() == Set::<Seq<char>>::empty(),
            r.days@ == Set::<i64>::empty(),
            r.mmsis@ == Set::<i64>::empty(),
    {
        broadcast use vstd::std_specs::hash::group_hash_axioms;

        let r = QueryTally {
            matched: 0,
            vessel_types: Vec::new(),
            days: HashSet::new(),
            mmsis: HashSet::new(),
        };
        assert(views(r.vessel_types@) =~= Seq::<Seq<char>>::empty());
        assert(r.vessel_type_set() =~= Set::<Seq<char>>::empty());
        r
    }

    /// Records a row that passed the filters: `vessel_type`, `timestamp` and
    /// `mmsi` are its `VesselType`, `BaseDateTime` and `MMSI` values.
    pub fn record(
        &mut self,
        operation: Operation,
        vessel_type: Option<&str>,
        timestamp: Option<i64>,
        mmsi: Option<i64>,
    )
        requires
            old(self).well_formed(),
            operation == Operation::Count || operation == Operation::Rows ==> old(self).matched
                < usize::MAX,
        ensures
            final(self).well_formed(),
            final(self).matched == old(self).matched + (if operation == Operation::Count || operation
                == Operation::Rows {
                1int
            } else {
                0int
            }),
            final(self).vessel_type_set() == (match (operation, vessel_type) {
                (Operation::GroupByVesselType, Some(v)) => old(self).vessel_type_set().insert(v@),
                _ => old(self).vessel_type_set(),
            }),
            final(self).days@ == (match (operation, timestamp) {
                (Operation::CountByDay, Some(t)) => old(self).days@.insert((t as int / 86_400_000_000) as i64),
                _ => old(self).days@,
            }),
            final(self).mmsis@ == (match (operation, mmsi) {
                (Operation::DistinctMmsi, Some(m)) => old(self).mmsis@.insert(m),
                _ => old(self).mmsis@,
            }),
    {
        broadcast use vstd::std_specs::hash::group_hash_axioms;

        match operation {
            Operation::GroupByVesselType => {
                if let Some(v) = vessel_type {
                    let ghost before = views(self.vessel_types@);
                    push_unique(&mut self.vessel_types, v);
                    proof {
                        assert(self.vessel_type_set() =~= before.to_set().insert(v@)) by {
                            broadcast use vstd::seq_lib::group_seq_properties;
                        }
                    }
                }
            },
            Operation::CountByDay => {
                if let Some(t) = timestamp {
                    self.days.insert(day_of_micros(t));
                }
            },
            Operation::DistinctMmsi => {
                if let Some(m) = mmsi {
                    self.mmsis.insert(m);
                }
            },
            Operation::Count | Operation::Rows => {
                self.matched = self.matched + 1;
            },
        }
    }

    /// The query's result: the number of distinct groups for the grouping
    /// operations, the number of matching rows otherwise.
    pub fn count(&self, operation: Operation) -> (r: usize)
        requires
            self.well_formed(),
        ensures
            r == (match operation {
                Operation::GroupByVesselType => self.vessel_type_set().len(),
                Operation::CountByDay => self.days@.len(),
                Operation::DistinctMmsi => self.mmsis@.len(),
                _ => self.matched as nat,
            }),
    {
        broadcast use vstd::std_specs::hash::group_hash_axioms;

        match operation {
            Operation::GroupByVesselType => {
                proof {
                    views(self.vessel_types@).unique_seq_to_set();
                }
                self.vessel_types.len()
            },
            Operation::CountByDay => self.days.len(),
            Operation::DistinctMmsi => self.mmsis.len(),
            Operation::Count | Operation::Rows => self.matched,
        }
    }
}

} // verus!
