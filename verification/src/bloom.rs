//! Pruning row groups with the Parquet Bloom filters of their columns: a row
//! group is skipped when the filter of a queried column rules out every value
//! the query asks for.
use crate::decimal::{decimal_string, decimal_text, parse_i32_spec, parse_i64_spec};
use crate::ingest::parse_int_field;
use crate::query::QueryDef;
use crate::text::{ascii_chars, str_equal};
use parquet::bloom_filter::Sbbf;
use vstd::prelude::*;
use vstd::utf8::encode_utf8;

verus! {

/// The Bloom filter of a column chunk, as the parquet crate reads it.
#[verifier::external_type_specification]
#[verifier::external_body]
pub struct ExSbbf(Sbbf);

/// The physical type of a column, which decides how its Bloom filter hashes
/// values.
#[derive(Debug, Clone, Copy, PartialEq, Eq, Structural)]
pub enum BloomColumnKind {
    Int32,
    Int64,
    ByteArray,
    /// Any other physical type: its Bloom filter cannot be probed here.
    Other,
}

/// A query value in the form a column's Bloom filter is probed with.
pub enum BloomProbe {
    Int32(i32),
    Int64(i64),
    Text(String),
}

/// A probe as a value.
pub enum ProbeValue {
    Int32(i32),
    Int64(i64),
    Text(Seq<char>),
}

/// Why a value could not be probed.
#[derive(Debug, Clone, Copy, PartialEq, Eq, Structural)]
pub enum BloomProbeError {
    /// The column holds integers and the value is not one of their type.
    NotANumber,
    /// The column's physical type has no probe.
    UnsupportedType,
}

impl View for BloomProbe {
    type V = ProbeValue;

    /// The probe as a value.
    open spec fn view(&self) -> ProbeValue {
        match self {
            BloomProbe::Int32(v) => ProbeValue::Int32(*v),
            BloomProbe::Int64(v) => ProbeValue::Int64(*v),
            BloomProbe::Text(s) => ProbeValue::Text(s@),
        }
    }
}

/// The probe for a query value given as text: the integer it is for integer
/// columns, the text itself for byte-array columns.
pub open spec fn probe_spec(kind: BloomColumnKind, value: Seq<char>) -> Result<ProbeValue, BloomProbeError> {
    match kind {
        BloomColumnKind::Int32 => match parse_i32_spec(encode_utf8(value)) {
            Some(v) => Ok(ProbeValue::Int32(v)),
            None => Err(BloomProbeError::NotANumber),
        },
        BloomColumnKind::Int64 => match parse_i64_spec(encode_utf8(value)) {
            Some(v) => Ok(ProbeValue::Int64(v)),
            None => Err(BloomProbeError::NotANumber),
        },
        BloomColumnKind::ByteArray => Ok(ProbeValue::Text(value)),
        BloomColumnKind::Other => Err(BloomProbeError::UnsupportedType),
    }
}

/// The probe for the query value `value` on a column of physical type `kind`.
pub fn bloom_probe(kind: BloomColumnKind, value: &str) -> (r: Result<BloomProbe, BloomProbeError>)
    ensures
        match r {
            Ok(p) => probe_spec(kind, value@) == Ok::<ProbeValue, BloomProbeError>(p@),
            Err(e) => probe_spec(kind, value@) == Err::<ProbeValue, BloomProbeError>(e),
        },
{
    match kind {
        BloomColumnKind::Int32 => {
            let b = value.as_bytes();
            proof {
                assert(b@.subrange(0, b@.len() as int) =~= b@);
            }
            match crate::decimal::parse_i32_decimal(b, 0, b.len()) {
                Some(v) => Ok(BloomProbe::Int32(v)),
                None => Err(BloomProbeError::NotANumber),
            }
        },
        BloomColumnKind::Int64 => match parse_int_field(value) {
            Some(v) => Ok(BloomProbe::Int64(v)),
            None => Err(BloomProbeError::NotANumber),
        },
        BloomColumnKind::ByteArray => Ok(BloomProbe::Text(String::from_str(value))),
        BloomColumnKind::Other => Err(BloomProbeError::UnsupportedType),
    }
}

/// What `Sbbf::check` of the parquet crate answers for `filter` and the
/// probed value: whether the filter may hold the value, `false` meaning that
/// it was never inserted. The answer hashes the value's bytes (integers in
/// the target's native byte order, text as its UTF-8 bytes) with xxHash64
/// under a fixed seed and reads the filter's blocks, so for a given target it
/// depends on the filter and the value alone.
pub uninterp spec fn sbbf_may_contain(filter: Sbbf, probe: ProbeValue) -> bool;

/// The filter has at least one block of bits. A filter read from a file whose
/// bitset is shorter than one block (32 bytes) has none.
pub uninterp spec fn sbbf_has_blocks(filter: Sbbf) -> bool;

/// `Sbbf::check` of the parquet crate, called with the probe's `i32`, `i64`
/// or `&str`. Its answer is named by `sbbf_may_contain`; the filter's bits,
/// and so which values it answers `true` for, are not modelled here.
/// `check` indexes the block its hash selects, and panics on a filter with no
/// blocks: `requires` leaves such a filter out, so the answer is that of a
/// filter with blocks.
#[verifier::external_body]
fn bloom_filter_check(filter: &Sbbf, probe: &BloomProbe) -> (r: bool)
    requires
        sbbf_has_blocks(*filter),
    ensures
        r == (sbbf_has_blocks(*filter) && sbbf_may_contain(*filter, probe@)),
{
    match probe {
        BloomProbe::Int32(v) => filter.check(v),
        BloomProbe::Int64(v) => filter.check(v),
        BloomProbe::Text(s) => filter.check(&s.as_str()),
    }
}

/// A leaf column of a row group: its path, its physical type and its Bloom
/// filter, if the file has one for it.
pub struct BloomColumn<'a> {
    pub path: String,
    pub kind: BloomColumnKind,
    pub filter: Option<&'a Sbbf>,
}

/// The index of the column at `name`; the last one counts when several share
/// a path, as in a map filled from the columns in order.
pub open spec fn bloom_slot(columns: Seq<BloomColumn>, name: Seq<char>) -> Option<int>
    decreases columns.len(),
{
    if columns.len() == 0 {
        None
    } else if columns.last().path@ == name {
        Some(columns.len() - 1)
    } else {
        bloom_slot(columns.drop_last(), name)
    }
}

proof fn lemma_bloom_slot_bound(columns: Seq<BloomColumn>, name: Seq<char>)
    ensures
        bloom_slot(columns, name) matches Some(i) ==> 0 <= i < columns.len(),
    decreases columns.len(),
{
    if columns.len() > 0 {
        lemma_bloom_slot_bound(columns.drop_last(), name);
    }
}

/// Column `name` has a Bloom filter, of physical type `kind`.
pub open spec fn filtered_as(columns: Seq<BloomColumn>, name: Seq<char>, kind: BloomColumnKind) -> bool {
    bloom_slot(columns, name) matches Some(i) && columns[i].filter is Some && columns[i].kind == kind
}

/// Column `name` has a Bloom filter.
pub open spec fn filtered(columns: Seq<BloomColumn>, name: Seq<char>) -> bool {
    bloom_slot(columns, name) matches Some(i) && columns[i].filter is Some
}

/// Every Bloom filter among the columns has at least one block.
pub open spec fn filters_have_blocks(columns: Seq<BloomColumn>) -> bool {
    forall|i: int| 0 <= i < columns.len() ==> ((#[trigger] columns[i]).filter matches Some(f) ==> sbbf_has_blocks(*f))
}

/// The text an `Int64` query value is probed with.
pub open spec fn i64_text(v: i64) -> Seq<char> {
    ascii_chars(decimal_text(v as int))
}

/// The query has equality or `IN` filters, which Bloom filters can test.
pub open spec fn has_point_filters(q: &QueryDef) -> bool {
    q.equalities@.len() > 0 || q.in_filters@.len() > 0 || q.equalities_i64@.len() > 0
        || q.in_filters_i64@.len() > 0
}

/// The physical type of the column at `name`.
pub open spec fn column_kind(columns: Seq<BloomColumn>, name: Seq<char>) -> BloomColumnKind {
    match bloom_slot(columns, name) {
        Some(i) => columns[i].kind,
        None => BloomColumnKind::Other,
    }
}

/// Probing `value` on the filtered column `name` fails with `e`.
pub open spec fn fails_on(columns: Seq<BloomColumn>, name: Seq<char>, value: Seq<char>, e: BloomProbeError) -> bool {
    filtered(columns, name) && probe_spec(column_kind(columns, name), value) == Err::<ProbeValue, BloomProbeError>(e)
}

/// Some filtered column of the query fails to probe one of its values with
/// error `e`.
pub open spec fn probe_fails(columns: Seq<BloomColumn>, q: &QueryDef, e: BloomProbeError) -> bool {
    ||| exists|i: int|
        0 <= i < q.equalities@.len() && fails_on(
            columns,
            (#[trigger] q.equalities@[i]).0@,
            q.equalities@[i].1@,
            e,
        )
    ||| exists|i: int, j: int|
        0 <= i < q.in_filters@.len() && 0 <= j < q.in_filters@[i].1@.len() && fails_on(
            columns,
            q.in_filters@[i].0@,
            (#[trigger] q.in_filters@[i].1@[j])@,
            e,
        )
    ||| exists|i: int|
        0 <= i < q.equalities_i64@.len() && fails_on(
            columns,
            (#[trigger] q.equalities_i64@[i]).0@,
            i64_text(q.equalities_i64@[i].1),
            e,
        )
    ||| exists|i: int, j: int|
        0 <= i < q.in_filters_i64@.len() && 0 <= j < q.in_filters_i64@[i].1@.len() && fails_on(
            columns,
            q.in_filters_i64@[i].0@,
            i64_text(#[trigger] q.in_filters_i64@[i].1@[j]),
            e,
        )
}

/// Some column that a point filter of the query reads has a Bloom filter.
pub open spec fn some_filter_probed(columns: Seq<BloomColumn>, q: &QueryDef) -> bool {
    ||| exists|i: int| 0 <= i < q.equalities@.len() && filtered(columns, (#[trigger] q.equalities@[i]).0@)
    ||| exists|i: int| 0 <= i < q.in_filters@.len() && filtered(columns, (#[trigger] q.in_filters@[i]).0@)
    ||| exists|i: int|
        0 <= i < q.equalities_i64@.len() && filtered(columns, (#[trigger] q.equalities_i64@[i]).0@)
    ||| exists|i: int|
        0 <= i < q.in_filters_i64@.len() && filtered(columns, (#[trigger] q.in_filters_i64@[i]).0@)
}

fn find_bloom_column(columns: &Vec<BloomColumn>, name: &str) -> (r: Option<usize>)
    ensures
        r matches Some(i) ==> bloom_slot(columns@, name@) == Some(i as int) && i < columns@.len(),
        r is None ==> bloom_slot(columns@, name@) is None,
{
    proof {
        lemma_bloom_slot_bound(columns@, name@);
    }
    let mut i = columns.len();
    assert(columns@.subrange(0, i as int) =~= columns@);
    while i > 0
        invariant
            i <= columns@.len(),
            bloom_slot(columns@, name@) == bloom_slot(columns@.subrange(0, i as int), name@),
        decreases i,
    {
        let ghost prefix = columns@.subrange(0, i as int);
        if str_equal(columns[i - 1].path.as_str(), name) {
            return Some(i - 1);
        }
        assert(prefix.drop_last() =~= columns@.subrange(0, i - 1));
        i = i - 1;
    }
    None
}

/// The Bloom filter and physical type of column `name`, if it has a filter.
fn column_filter<'a>(columns: &Vec<BloomColumn<'a>>, name: &str) -> (r: Option<(&'a Sbbf, BloomColumnKind)>)
    requires
        filters_have_blocks(columns@),
    ensures
        r matches Some((f, k)) ==> sbbf_has_blocks(*f),
        r matches Some((f, k)) ==> filter_of(columns@, name@) == Some((*f, k)),
        r is None ==> filter_of(columns@, name@) is None,
        r matches Some((f, k)) ==> filtered_as(columns@, name@, k),
        r is None ==> !filtered(columns@, name@),
{
    match find_bloom_column(columns, name) {
        Some(i) => match columns[i].filter {
            Some(filter) => Some((filter, columns[i].kind)),
            None => None,
        },
        None => None,
    }
}

/// The Bloom filter and physical type of column `name`, when it has a filter.
pub open spec fn filter_of(columns: Seq<BloomColumn>, name: Seq<char>) -> Option<(Sbbf, BloomColumnKind)> {
    match bloom_slot(columns, name) {
        Some(i) => match columns[i].filter {
            Some(f) => Some((*f, columns[i].kind)),
            None => None,
        },
        None => None,
    }
}

/// What an equality filter `name = value` decides: nothing (`None`) when the
/// column has no filter or the filter may hold the value; the probe's error;
/// or that the row group can be skipped.
pub open spec fn value_verdict(columns: Seq<BloomColumn>, name: Seq<char>, value: Seq<char>) -> Option<
    Result<bool, BloomProbeError>,
> {
    match filter_of(columns, name) {
        None => None,
        Some((f, kind)) => match probe_spec(kind, value) {
            Err(e) => Some(Err(e)),
            Ok(p) => if sbbf_may_contain(f, p) {
                None
            } else {
                Some(Ok(true))
            },
        },
    }
}

/// Whether the filter `f` may hold one of `values`, probing them in order;
/// the error of the first value that cannot be probed.
pub open spec fn any_may_contain(f: Sbbf, kind: BloomColumnKind, values: Seq<Seq<char>>) -> Result<
    bool,
    BloomProbeError,
>
    decreases values.len(),
{
    if values.len() == 0 {
        Ok(false)
    } else {
        match any_may_contain(f, kind, values.drop_last()) {
            Err(e) => Err(e),
            Ok(a) => match probe_spec(kind, values.last()) {
                Err(e) => Err(e),
                Ok(p) => Ok(a || sbbf_may_contain(f, p)),
            },
        }
    }
}

/// What an `IN` filter `name IN values` decides: nothing when the column has
/// no filter or the filter may hold one of the values; a probe's error; or
/// that the row group can be skipped.
pub open spec fn values_verdict(columns: Seq<BloomColumn>, name: Seq<char>, values: Seq<Seq<char>>) -> Option<
    Result<bool, BloomProbeError>,
> {
    match filter_of(columns, name) {
        None => None,
        Some((f, kind)) => match any_may_contain(f, kind, values) {
            Err(e) => Some(Err(e)),
            Ok(a) => if a {
                None
            } else {
                Some(Ok(true))
            },
        },
    }
}

/// The first decision of a list of verdicts, if any decides.
pub open spec fn first_verdict(vs: Seq<Option<Result<bool, BloomProbeError>>>) -> Option<
    Result<bool, BloomProbeError>,
>
    decreases vs.len(),
{
    if vs.len() == 0 {
        None
    } else {
        match first_verdict(vs.drop_last()) {
            Some(d) => Some(d),
            None => vs.last(),
        }
    }
}

/// The verdicts of the string equality filters, in order.
pub open spec fn eq_verdicts(columns: Seq<BloomColumn>, q: &QueryDef) -> Seq<Option<Result<bool, BloomProbeError>>> {
    q.equalities@.map_values(|p: (String, String)| value_verdict(columns, p.0@, p.1@))
}

/// The texts of a list of string values.
pub open spec fn texts(values: Seq<String>) -> Seq<Seq<char>> {
    values.map_values(|s: String| s@)
}

/// The texts of a list of `Int64` values.
pub open spec fn i64_texts(values: Seq<i64>) -> Seq<Seq<char>> {
    values.map_values(|v: i64| i64_text(v))
}

/// The verdicts of the string `IN` filters, in order.
pub open spec fn in_verdicts(columns: Seq<BloomColumn>, q: &QueryDef) -> Seq<Option<Result<bool, BloomProbeError>>> {
    q.in_filters@.map_values(|p: (String, Vec<String>)| values_verdict(columns, p.0@, texts(p.1@)))
}

/// The verdicts of the `Int64` equality filters, in order.
pub open spec fn eq_i64_verdicts(columns: Seq<BloomColumn>, q: &QueryDef) -> Seq<Option<Result<bool, BloomProbeError>>> {
    q.equalities_i64@.map_values(|p: (String, i64)| value_verdict(columns, p.0@, i64_text(p.1)))
}

/// The verdicts of the `Int64` `IN` filters, in order.
pub open spec fn in_i64_verdicts(columns: Seq<BloomColumn>, q: &QueryDef) -> Seq<Option<Result<bool, BloomProbeError>>> {
    q.in_filters_i64@.map_values(|p: (String, Vec<i64>)| values_verdict(columns, p.0@, i64_texts(p.1@)))
}

/// The outcome of the Bloom test of a row group: the first decision among the
/// string equalities, the string `IN` filters, the `Int64` equalities and the
/// `Int64` `IN` filters, in that order; `Ok(false)` when none decides.
pub open spec fn bloom_skip_spec(columns: Seq<BloomColumn>, q: &QueryDef) -> Result<bool, BloomProbeError> {
    match first_verdict(
        eq_verdicts(columns, q) + in_verdicts(columns, q) + eq_i64_verdicts(columns, q) + in_i64_verdicts(columns, q),
    ) {
        Some(r) => r,
        None => Ok(false),
    }
}

proof fn lemma_first_verdict_concat(a: Seq<Option<Result<bool, BloomProbeError>>>, b: Seq<Option<Result<bool, BloomProbeError>>>)
    ensures
        first_verdict(a + b) == (match first_verdict(a) {
            Some(d) => Some(d),
            None => first_verdict(b),
        }),
    decreases b.len(),
{
    if b.len() == 0 {
        assert(a + b =~= a);
    } else {
        lemma_first_verdict_concat(a, b.drop_last());
        assert((a + b).drop_last() =~= a + b.drop_last());
        assert((a + b).last() == b.last());
    }
}

proof fn lemma_first_verdict_step(vs: Seq<Option<Result<bool, BloomProbeError>>>, i: int)
    requires
        0 <= i < vs.len(),
    ensures
        first_verdict(vs.take(i + 1)) == (match first_verdict(vs.take(i)) {
            Some(d) => Some(d),
            None => vs[i],
        }),
{
    assert(vs.take(i + 1).drop_last() =~= vs.take(i));
}

proof fn lemma_first_verdict_prefix(vs: Seq<Option<Result<bool, BloomProbeError>>>, i: int)
    requires
        0 <= i <= vs.len(),
        first_verdict(vs.take(i)) is Some,
    ensures
        first_verdict(vs) == first_verdict(vs.take(i)),
{
    lemma_first_verdict_concat(vs.take(i), vs.skip(i));
    assert(vs.take(i) + vs.skip(i) =~= vs);
}

proof fn lemma_any_may_contain_step(f: Sbbf, kind: BloomColumnKind, values: Seq<Seq<char>>, j: int)
    requires
        0 <= j < values.len(),
    ensures
        any_may_contain(f, kind, values.take(j + 1)) == (match any_may_contain(f, kind, values.take(j)) {
            Err(e) => Err(e),
            Ok(a) => match probe_spec(kind, values[j]) {
                Err(e) => Err(e),
                Ok(p) => Ok(a || sbbf_may_contain(f, p)),
            },
        }),
{
    assert(values.take(j + 1).drop_last() =~= values.take(j));
}

proof fn lemma_any_may_contain_error(f: Sbbf, kind: BloomColumnKind, values: Seq<Seq<char>>, j: int)
    requires
        0 <= j <= values.len(),
        any_may_contain(f, kind, values.take(j)) is Err,
    ensures
        any_may_contain(f, kind, values) == any_may_contain(f, kind, values.take(j)),
    decreases values.len() - j,
{
    if j < values.len() {
        lemma_any_may_contain_step(f, kind, values, j);
        lemma_any_may_contain_error(f, kind, values, j + 1);
    } else {
        assert(values.take(j) =~= values);
    }
}

proof fn lemma_any_may_contain_error_at(f: Sbbf, kind: BloomColumnKind, values: Seq<Seq<char>>, e: BloomProbeError) -> (j: int)
    requires
        any_may_contain(f, kind, values) == Err::<bool, BloomProbeError>(e),
    ensures
        0 <= j < values.len(),
        probe_spec(kind, values[j]) == Err::<ProbeValue, BloomProbeError>(e),
    decreases values.len(),
{
    let prev = values.drop_last();
    match any_may_contain(f, kind, prev) {
        Err(e0) => {
            let j = lemma_any_may_contain_error_at(f, kind, prev, e);
            assert(values[j] == prev[j]);
            j
        },
        Ok(_) => values.len() - 1,
    }
}

proof fn lemma_bloom_skip_stages(columns: Seq<BloomColumn>, q: &QueryDef)
    ensures
        bloom_skip_spec(columns, q) == (match first_verdict(eq_verdicts(columns, q)) {
            Some(d) => d,
            None => match first_verdict(in_verdicts(columns, q)) {
                Some(d) => d,
                None => match first_verdict(eq_i64_verdicts(columns, q)) {
                    Some(d) => d,
                    None => match first_verdict(in_i64_verdicts(columns, q)) {
                        Some(d) => d,
                        None => Ok(false),
                    },
                },
            },
        }),
{
    let e1 = eq_verdicts(columns, q);
    let e2 = in_verdicts(columns, q);
    let e3 = eq_i64_verdicts(columns, q);
    let e4 = in_i64_verdicts(columns, q);
    lemma_first_verdict_concat(e1 + e2 + e3, e4);
    lemma_first_verdict_concat(e1 + e2, e3);
    lemma_first_verdict_concat(e1, e2);
}

/// Whether `filter` may hold one of the string `values`, probed as `kind`;
/// the error of the first value that cannot be probed.
fn any_text_may_be_present(filter: &Sbbf, kind: BloomColumnKind, values: &Vec<String>) -> (r: Result<bool, BloomProbeError>)
    requires
        sbbf_has_blocks(*filter),
    ensures
        r == any_may_contain(*filter, kind, texts(values@)),
{
    let ghost vs = texts(values@);
    let mut any_present = false;
    let mut j: usize = 0;
    while j < values.len()
        invariant
            sbbf_has_blocks(*filter),
            vs == texts(values@),
            j <= values@.len(),
            any_may_contain(*filter, kind, vs.take(j as int)) == Ok::<bool, BloomProbeError>(any_present),
        decreases values.len() - j,
    {
        proof {
            lemma_any_may_contain_step(*filter, kind, vs, j as int);
        }
        match bloom_probe(kind, values[j].as_str()) {
            Ok(probe) => {
                any_present = any_present || bloom_filter_check(filter, &probe);
            },
            Err(e) => {
                proof {
                    lemma_any_may_contain_error(*filter, kind, vs, j + 1);
                }
                return Err(e);
            },
        }
        j = j + 1;
    }
    proof {
        assert(vs.take(j as int) =~= vs);
    }
    Ok(any_present)
}

/// Whether `filter` may hold one of the `Int64` `values`, each probed through
/// its decimal text as `kind`; the error of the first value that cannot be
/// probed.
fn any_i64_may_be_present(filter: &Sbbf, kind: BloomColumnKind, values: &Vec<i64>) -> (r: Result<bool, BloomProbeError>)
    requires
        sbbf_has_blocks(*filter),
    ensures
        r == any_may_contain(*filter, kind, i64_texts(values@)),
{
    let ghost vs = i64_texts(values@);
    let mut any_present = false;
    let mut j: usize = 0;
    while j < values.len()
        invariant
            sbbf_has_blocks(*filter),
            vs == i64_texts(values@),
            j <= values@.len(),
            any_may_contain(*filter, kind, vs.take(j as int)) == Ok::<bool, BloomProbeError>(any_present),
        decreases values.len() - j,
    {
        proof {
            lemma_any_may_contain_step(*filter, kind, vs, j as int);
        }
        let text = decimal_string(values[j]);
        match bloom_probe(kind, text.as_str()) {
            Ok(probe) => {
                any_present = any_present || bloom_filter_check(filter, &probe);
            },
            Err(e) => {
                proof {
                    lemma_any_may_contain_error(*filter, kind, vs, j + 1);
                }
                return Err(e);
            },
        }
        j = j + 1;
    }
    proof {
        assert(vs.take(j as int) =~= vs);
    }
    Ok(any_present)
}

/// The filter of column `name` answers "not present" for `value`, which
/// probes without error.
pub open spec fn rules_out(columns: Seq<BloomColumn>, name: Seq<char>, value: Seq<char>) -> bool {
    filter_of(columns, name) matches Some((f, k)) && (probe_spec(k, value) matches Ok(p) && !sbbf_may_contain(f, p))
}

/// The filter of column `name` answers "not present" for every one of
/// `values`, each of which probes without error.
pub open spec fn rules_out_all(columns: Seq<BloomColumn>, name: Seq<char>, values: Seq<Seq<char>>) -> bool {
    filter_of(columns, name) matches Some((f, k)) && forall|j: int|
        0 <= j < values.len() ==> (probe_spec(k, #[trigger] values[j]) matches Ok(p) && !sbbf_may_contain(f, p))
}

/// Some point filter of the query is ruled out by its column's Bloom filter:
/// an equality whose value the filter rules out, or an `IN` list all of whose
/// values it rules out.
pub open spec fn some_filter_rules_out(columns: Seq<BloomColumn>, q: &QueryDef) -> bool {
    ||| exists|i: int|
        0 <= i < q.equalities@.len() && rules_out(columns, (#[trigger] q.equalities@[i]).0@, q.equalities@[i].1@)
    ||| exists|i: int|
        0 <= i < q.in_filters@.len() && rules_out_all(
            columns,
            (#[trigger] q.in_filters@[i]).0@,
            texts(q.in_filters@[i].1@),
        )
    ||| exists|i: int|
        0 <= i < q.equalities_i64@.len() && rules_out(
            columns,
            (#[trigger] q.equalities_i64@[i]).0@,
            i64_text(q.equalities_i64@[i].1),
        )
    ||| exists|i: int|
        0 <= i < q.in_filters_i64@.len() && rules_out_all(
            columns,
            (#[trigger] q.in_filters_i64@[i]).0@,
            i64_texts(q.in_filters_i64@[i].1@),
        )
}

proof fn lemma_first_verdict_witness(vs: Seq<Option<Result<bool, BloomProbeError>>>, d: Result<bool, BloomProbeError>)
    requires
        first_verdict(vs) == Some(d),
    ensures
        exists|i: int| 0 <= i < vs.len() && vs[i] == Some(d),
    decreases vs.len(),
{
    if first_verdict(vs.drop_last()) is Some {
        lemma_first_verdict_witness(vs.drop_last(), d);
        let i = choose|i: int| 0 <= i < vs.drop_last().len() && vs.drop_last()[i] == Some(d);
        assert(vs[i] == Some(d));
    } else {
        assert(vs[vs.len() - 1] == Some(d));
    }
}

#[verifier::spinoff_prover]
#[verifier::rlimit(20)]
proof fn lemma_none_may_contain(f: Sbbf, kind: BloomColumnKind, values: Seq<Seq<char>>)
    requires
        any_may_contain(f, kind, values) == Ok::<bool, BloomProbeError>(false),
    ensures
        forall|j: int|
            0 <= j < values.len() ==> (probe_spec(kind, #[trigger] values[j]) matches Ok(p) && !sbbf_may_contain(f, p)),
    decreases values.len(),
{
    if values.len() > 0 {
        let prev = values.drop_last();
        let last = values.last();
        assert(any_may_contain(f, kind, prev) == Ok::<bool, BloomProbeError>(false) && (probe_spec(kind, last) matches Ok(
            p,
        ) && !sbbf_may_contain(f, p))) by {
            match any_may_contain(f, kind, prev) {
                Err(e) => {},
                Ok(a) => {},
            }
        }
        lemma_none_may_contain(f, kind, prev);
        assert forall|j: int| 0 <= j < values.len() implies (probe_spec(kind, #[trigger] values[j]) matches Ok(p)
            && !sbbf_may_contain(f, p)) by {
            if j < values.len() - 1 {
                assert(values[j] == prev[j]);
            }
        }
    }
}

/// Law: Bloom pruning skips a row group only when the Bloom filter of a
/// queried column answers "not present" for the value of an equality filter,
/// or for every value of an `IN` filter, as the parquet crate's `check`
/// answers it; a value present in the row group is never answered so, as
/// the filter was built from the row group's values.
pub proof fn lemma_bloom_skip_sound(columns: Seq<BloomColumn>, q: &QueryDef)
    ensures
        bloom_skip_spec(columns, q) == Ok::<bool, BloomProbeError>(true) ==> some_filter_rules_out(columns, q),
{
    let e1 = eq_verdicts(columns, q);
    let e2 = in_verdicts(columns, q);
    let e3 = eq_i64_verdicts(columns, q);
    let e4 = in_i64_verdicts(columns, q);
    let d = Ok::<bool, BloomProbeError>(true);
    lemma_bloom_skip_stages(columns, q);
    if bloom_skip_spec(columns, q) == d {
        if first_verdict(e1) is Some {
            lemma_first_verdict_witness(e1, d);
            let i = choose|i: int| 0 <= i < e1.len() && e1[i] == Some(d);
            assert(rules_out(columns, q.equalities@[i].0@, q.equalities@[i].1@));
        } else if first_verdict(e2) is Some {
            lemma_first_verdict_witness(e2, d);
            let i = choose|i: int| 0 <= i < e2.len() && e2[i] == Some(d);
            let (f, k) = filter_of(columns, q.in_filters@[i].0@).unwrap();
            lemma_none_may_contain(f, k, texts(q.in_filters@[i].1@));
            assert(rules_out_all(columns, q.in_filters@[i].0@, texts(q.in_filters@[i].1@)));
        } else if first_verdict(e3) is Some {
            lemma_first_verdict_witness(e3, d);
            let i = choose|i: int| 0 <= i < e3.len() && e3[i] == Some(d);
            assert(rules_out(columns, q.equalities_i64@[i].0@, i64_text(q.equalities_i64@[i].1)));
        } else {
            lemma_first_verdict_witness(e4, d);
            let i = choose|i: int| 0 <= i < e4.len() && e4[i] == Some(d);
            let (f, k) = filter_of(columns, q.in_filters_i64@[i].0@).unwrap();
            lemma_none_may_contain(f, k, i64_texts(q.in_filters_i64@[i].1@));
            assert(rules_out_all(columns, q.in_filters_i64@[i].0@, i64_texts(q.in_filters_i64@[i].1@)));
        }
    }
}

/// The first decision of the string equality filters.
fn eq_stage(columns: &Vec<BloomColumn>, q: &QueryDef) -> (r: Option<Result<bool, BloomProbeError>>)
    requires
        filters_have_blocks(columns@),
    ensures
        r == first_verdict(eq_verdicts(columns@, q)),
        r is Some ==> some_filter_probed(columns@, q),
        r matches Some(Err(e)) ==> probe_fails(columns@, q, e),
        r matches Some(Ok(b)) ==> b,
{
    let ghost vs = eq_verdicts(columns@, q);
    let mut i: usize = 0;
    while i < q.equalities.len()
        invariant
            filters_have_blocks(columns@),
            i <= q.equalities@.len(),
            vs == eq_verdicts(columns@, q),
            first_verdict(vs.take(i as int)) is None,
        decreases q.equalities.len() - i,
    {
        proof {
            lemma_first_verdict_step(vs, i as int);
        }
        if let Some((filter, kind)) = column_filter(columns, q.equalities[i].0.as_str()) {
            match bloom_probe(kind, q.equalities[i].1.as_str()) {
                Ok(probe) => {
                    if !bloom_filter_check(filter, &probe) {
                        assert(filtered(columns@, q.equalities@[i as int].0@));
                        proof {
                            lemma_first_verdict_prefix(vs, i + 1);
                        }
                        return Some(Ok(true));
                    }
                },
                Err(e) => {
                    assert(filtered_as(columns@, q.equalities@[i as int].0@, kind));
                    proof {
                        lemma_first_verdict_prefix(vs, i + 1);
                    }
                    return Some(Err(e));
                },
            }
        }
        i = i + 1;
    }
    proof {
        assert(vs.take(i as int) =~= vs);
    }
    None
}

/// The first decision of the string `IN` filters.
fn in_stage(columns: &Vec<BloomColumn>, q: &QueryDef) -> (r: Option<Result<bool, BloomProbeError>>)
    requires
        filters_have_blocks(columns@),
    ensures
        r == first_verdict(in_verdicts(columns@, q)),
        r is Some ==> some_filter_probed(columns@, q),
        r matches Some(Err(e)) ==> probe_fails(columns@, q, e),
        r matches Some(Ok(b)) ==> b,
{
    let ghost vs = in_verdicts(columns@, q);
    let mut i: usize = 0;
    while i < q.in_filters.len()
        invariant
            filters_have_blocks(columns@),
            i <= q.in_filters@.len(),
            vs == in_verdicts(columns@, q),
            first_verdict(vs.take(i as int)) is None,
        decreases q.in_filters.len() - i,
    {
        proof {
            lemma_first_verdict_step(vs, i as int);
        }
        if let Some((filter, kind)) = column_filter(columns, q.in_filters[i].0.as_str()) {
            match any_text_may_be_present(filter, kind, &q.in_filters[i].1) {
                Ok(any_present) => {
                    if !any_present {
                        assert(filtered(columns@, q.in_filters@[i as int].0@));
                        proof {
                            lemma_first_verdict_prefix(vs, i + 1);
                        }
                        return Some(Ok(true));
                    }
                },
                Err(e) => {
                    proof {
                        let values = texts(q.in_filters@[i as int].1@);
                        let j = lemma_any_may_contain_error_at(*filter, kind, values, e);
                        assert(values[j] == q.in_filters@[i as int].1@[j]@);
                        assert(fails_on(columns@, q.in_filters@[i as int].0@, q.in_filters@[i as int].1@[j]@, e));
                        lemma_first_verdict_prefix(vs, i + 1);
                    }
                    return Some(Err(e));
                },
            }
        }
        i = i + 1;
    }
    proof {
        assert(vs.take(i as int) =~= vs);
    }
    None
}

/// The first decision of the `Int64` equality filters.
fn eq_i64_stage(columns: &Vec<BloomColumn>, q: &QueryDef) -> (r: Option<Result<bool, BloomProbeError>>)
    requires
        filters_have_blocks(columns@),
    ensures
        r == first_verdict(eq_i64_verdicts(columns@, q)),
        r is Some ==> some_filter_probed(columns@, q),
        r matches Some(Err(e)) ==> probe_fails(columns@, q, e),
        r matches Some(Ok(b)) ==> b,
{
    let ghost vs = eq_i64_verdicts(columns@, q);
    let mut i: usize = 0;
    while i < q.equalities_i64.len()
        invariant
            filters_have_blocks(columns@),
            i <= q.equalities_i64@.len(),
            vs == eq_i64_verdicts(columns@, q),
            first_verdict(vs.take(i as int)) is None,
        decreases q.equalities_i64.len() - i,
    {
        proof {
            lemma_first_verdict_step(vs, i as int);
        }
        if let Some((filter, kind)) = column_filter(columns, q.equalities_i64[i].0.as_str()) {
            let text = decimal_string(q.equalities_i64[i].1);
            match bloom_probe(kind, text.as_str()) {
                Ok(probe) => {
                    if !bloom_filter_check(filter, &probe) {
                        assert(filtered(columns@, q.equalities_i64@[i as int].0@));
                        proof {
                            lemma_first_verdict_prefix(vs, i + 1);
                        }
                        return Some(Ok(true));
                    }
                },
                Err(e) => {
                    assert(filtered_as(columns@, q.equalities_i64@[i as int].0@, kind));
                    proof {
                        lemma_first_verdict_prefix(vs, i + 1);
                    }
                    return Some(Err(e));
                },
            }
        }
        i = i + 1;
    }
    proof {
        assert(vs.take(i as int) =~= vs);
    }
    None
}

/// The first decision of the `Int64` `IN` filters.
fn in_i64_stage(columns: &Vec<BloomColumn>, q: &QueryDef) -> (r: Option<Result<bool, BloomProbeError>>)
    requires
        filters_have_blocks(columns@),
    ensures
        r == first_verdict(in_i64_verdicts(columns@, q)),
        r is Some ==> some_filter_probed(columns@, q),
        r matches Some(Err(e)) ==> probe_fails(columns@, q, e),
        r matches Some(Ok(b)) ==> b,
{
    let ghost vs = in_i64_verdicts(columns@, q);
    let mut i: usize = 0;
    while i < q.in_filters_i64.len()
        invariant
            filters_have_blocks(columns@),
            i <= q.in_filters_i64@.len(),
            vs == in_i64_verdicts(columns@, q),
            first_verdict(vs.take(i as int)) is None,
        decreases q.in_filters_i64.len() - i,
    {
        proof {
            lemma_first_verdict_step(vs, i as int);
        }
        if let Some((filter, kind)) = column_filter(columns, q.in_filters_i64[i].0.as_str()) {
            match any_i64_may_be_present(filter, kind, &q.in_filters_i64[i].1) {
                Ok(any_present) => {
                    if !any_present {
                        assert(filtered(columns@, q.in_filters_i64@[i as int].0@));
                        proof {
                            lemma_first_verdict_prefix(vs, i + 1);
                        }
                        return Some(Ok(true));
                    }
                },
                Err(e) => {
                    proof {
                        let values = i64_texts(q.in_filters_i64@[i as int].1@);
                        let j = lemma_any_may_contain_error_at(*filter, kind, values, e);
                        assert(values[j] == i64_text(q.in_filters_i64@[i as int].1@[j]));
                        assert(fails_on(columns@, q.in_filters_i64@[i as int].0@, i64_text(q.in_filters_i64@[i as int].1@[j]), e));
                        lemma_first_verdict_prefix(vs, i + 1);
                    }
                    return Some(Err(e));
                },
            }
        }
        i = i + 1;
    }
    proof {
        assert(vs.take(i as int) =~= vs);
    }
    None
}

/// Whether a row group can be skipped because the Bloom filter of a queried
/// column rules out the value of an equality filter, or every value of an
/// `IN` filter. `Int64` query values are probed through their decimal text,
/// as integers for integer columns and as text for byte-array columns. The
/// filters are tried in order (string equalities, string `IN` filters,
/// `Int64` equalities, `Int64` `IN` filters); the first that rules the row
/// group out, or whose value cannot be probed, decides.
pub fn bloom_skip_row_group(columns: &Vec<BloomColumn>, q: &QueryDef) -> (r: Result<bool, BloomProbeError>)
    requires
        filters_have_blocks(columns@),
    ensures
        r == bloom_skip_spec(columns@, q),
        r == Ok::<bool, BloomProbeError>(true) ==> some_filter_rules_out(columns@, q),
        !has_point_filters(q) ==> r == Ok::<bool, BloomProbeError>(false),
        !some_filter_probed(columns@, q) ==> r == Ok::<bool, BloomProbeError>(false),
        r == Ok::<bool, BloomProbeError>(true) ==> some_filter_probed(columns@, q),
        r matches Err(e) ==> probe_fails(columns@, q, e),
{
    proof {
        lemma_bloom_skip_stages(columns@, q);
        lemma_bloom_skip_sound(columns@, q);
    }
    if q.equalities.len() == 0 && q.in_filters.len() == 0 && q.equalities_i64.len() == 0
        && q.in_filters_i64.len() == 0 {
        proof {
            assert(eq_verdicts(columns@, q) =~= Seq::empty());
            assert(in_verdicts(columns@, q) =~= Seq::empty());
            assert(eq_i64_verdicts(columns@, q) =~= Seq::empty());
            assert(in_i64_verdicts(columns@, q) =~= Seq::empty());
        }
        return Ok(false);
    }
    if let Some(r) = eq_stage(columns, q) {
        return r;
    }
    if let Some(r) = in_stage(columns, q) {
        return r;
    }
    if let Some(r) = eq_i64_stage(columns, q) {
        return r;
    }
    if let Some(r) = in_i64_stage(columns, q) {
        return r;
    }
    Ok(false)
}

} // verus!
