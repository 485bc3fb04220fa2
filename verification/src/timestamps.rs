//! Reading the timestamps of AIS records and of benchmark query bounds into
//! microseconds since 1970-01-01T00:00:00Z.
use crate::calendar::{civil_days_fit, day_number, days_from_civil, days_from_civil_spec};
use crate::decimal::{
    decimal_digits, is_digit, lemma_signed_decimal_bound, lemma_zero_padded_reads_back, parse_i32_decimal, parse_i32_spec,
    parse_i64_decimal, parse_i64_spec, pow10, signed_decimal, zero_padded_text, zeros,
};
use crate::text::{ascii_chars, on_boundary, on_boundary_exec, trim_spec, trim_str};
use vstd::arithmetic::div_mod::*;
use vstd::prelude::*;
use vstd::utf8::{encode_utf8, is_ascii_chars, is_ascii_chars_encode_utf8};

verus! {

/// Why a `BaseDateTime` text was rejected.
#[derive(Debug, Clone, Copy, PartialEq, Eq, Structural)]
pub enum TimestampError {
    /// Fewer than 19 bytes after trimming.
    TooShort,
    /// A date, time or offset field is not an integer.
    InvalidNumber,
}

/// Microseconds of a date and time of day (fields may lie outside their usual ranges).
pub open spec fn datetime_micros_spec(year: int, month: int, day: int, hour: int, min: int, sec: int) -> int {
    (days_from_civil_spec(year, month, day) * 86400 + hour * 3600 + min * 60 + sec) * 1_000_000
}

proof fn lemma_days_bound(year: int, month: int, day: int)
    requires
        -10_000 <= year <= 10_000,
        -100 <= month <= 100,
        -100 <= day <= 100,
    ensures
        -5_000_000 <= days_from_civil_spec(year, month, day) <= 5_000_000,
{
    let y = if month <= 2 { year - 1 } else { year };
    lemma_fundamental_div_mod(y, 400);
    let a = 153 * (month + if month > 2 { -3int } else { 9int }) + 2;
    if a >= 0 {
        lemma_fundamental_div_mod(a, 5);
    } else {
        lemma_fundamental_div_mod(-a, 5);
    }
    let yoe = y % 400;
    lemma_fundamental_div_mod(yoe, 4);
    lemma_fundamental_div_mod(yoe, 100);
}

/// Every step of `datetime_to_micros` stays within `i64`.
pub open spec fn datetime_fits(year: int, month: int, day: int, hour: int, min: int, sec: int) -> bool {
    let days = days_from_civil_spec(year, month, day);
    &&& civil_days_fit(year, month, day)
    &&& i64::MIN <= days * 86400 <= i64::MAX
    &&& i64::MIN <= days * 86400 + hour * 3600 <= i64::MAX
    &&& i64::MIN <= days * 86400 + hour * 3600 + min * 60 <= i64::MAX
    &&& i64::MIN <= days * 86400 + hour * 3600 + min * 60 + sec <= i64::MAX
    &&& i64::MIN <= datetime_micros_spec(year, month, day, hour, min, sec) <= i64::MAX
}

proof fn lemma_small_datetime_fits(year: int, month: int, day: int, hour: int, min: int, sec: int)
    requires
        -10_000 <= year <= 10_000,
        -100 <= month <= 100,
        -100 <= day <= 100,
        -100 <= hour <= 100,
        -100 <= min <= 100,
        -100 <= sec <= 100,
    ensures
        datetime_fits(year, month, day, hour, min, sec),
{
    lemma_days_bound(year, month, day);
    let y2 = if month <= 2 { year - 1 } else { year };
    lemma_fundamental_div_mod(y2, 400);
}

/// Microseconds from 1970-01-01T00:00:00 to the given date and time.
pub fn datetime_to_micros(year: i64, month: i32, day: i32, hour: i32, min: i32, sec: i32) -> (r: i64)
    requires
        datetime_fits(year as int, month as int, day as int, hour as int, min as int, sec as int),
    ensures
        r == datetime_micros_spec(year as int, month as int, day as int, hour as int, min as int, sec as int),
{
    let days = days_from_civil(year, month, day);
    (days * 86400 + hour as i64 * 3600 + min as i64 * 60 + sec as i64) * 1_000_000
}

/// The bytes `b[start..end]` as a field of the timestamp.
pub open spec fn field(b: Seq<u8>, start: int, end: int) -> Seq<u8> {
    b.subrange(start, end)
}

/// Slicing the trimmed text `b` the way `parse_base_dt_micros` does reaches an
/// index inside a multi-byte character before a field fails to parse.
pub open spec fn base_dt_slicing_panics_spec(b: Seq<u8>) -> bool {
    &&& b.len() >= 19
    &&& {
        ||| !on_boundary(b, 4)
        ||| parse_i64_spec(field(b, 0, 4)) is Some && {
            ||| !on_boundary(b, 5) || !on_boundary(b, 7)
            ||| parse_i32_spec(field(b, 5, 7)) is Some && {
                ||| !on_boundary(b, 8) || !on_boundary(b, 10)
                ||| parse_i32_spec(field(b, 8, 10)) is Some && {
                    ||| !on_boundary(b, 11) || !on_boundary(b, 13)
                    ||| parse_i32_spec(field(b, 11, 13)) is Some && {
                        ||| !on_boundary(b, 14) || !on_boundary(b, 16)
                        ||| parse_i32_spec(field(b, 14, 16)) is Some && {
                            ||| !on_boundary(b, 17) || !on_boundary(b, 19)
                            ||| parse_i32_spec(field(b, 17, 19)) is Some && b.len() > 19
                                && (b[19] == 43 || b[19] == 45) && (b.len() < 22 || !on_boundary(b, 22))
                        }
                    }
                }
            }
        }
    }
}

/// The result of reading the trimmed timestamp text `b`
/// (`YYYY?MM?DD?hh?mm?ss` with an optional `+hh` or `-hh` offset).
pub open spec fn base_dt_spec(b: Seq<u8>) -> Result<i64, TimestampError> {
    if b.len() < 19 {
        Err(TimestampError::TooShort)
    } else {
        let year = parse_i64_spec(field(b, 0, 4));
        let month = parse_i32_spec(field(b, 5, 7));
        let day = parse_i32_spec(field(b, 8, 10));
        let hour = parse_i32_spec(field(b, 11, 13));
        let min = parse_i32_spec(field(b, 14, 16));
        let sec = parse_i32_spec(field(b, 17, 19));
        let has_offset = b.len() > 19 && (b[19] == 43 || b[19] == 45);
        let tz = parse_i64_spec(field(b, 20, 22));
        if year is None || month is None || day is None || hour is None || min is None || sec is None
            || (has_offset && tz is None) {
            Err(TimestampError::InvalidNumber)
        } else {
            let offset_secs = if has_offset {
                (if b[19] == 45 { -1int } else { 1int }) * tz.unwrap() * 3600
            } else {
                0
            };
            Ok((datetime_micros_spec(
                year.unwrap() as int,
                month.unwrap() as int,
                day.unwrap() as int,
                hour.unwrap() as int,
                min.unwrap() as int,
                sec.unwrap() as int,
            ) - offset_secs * 1_000_000) as i64)
        }
    }
}

/// The UTF-8 bytes of `s` with leading and trailing white space removed.
pub open spec fn trimmed_bytes(s: Seq<char>) -> Seq<u8> {
    encode_utf8(trim_spec(s))
}

proof fn lemma_two_byte_field(b: Seq<u8>, start: int)
    requires
        0 <= start,
        start + 2 <= b.len(),
    ensures
        parse_i32_spec(field(b, start, start + 2)) is Some ==> -9 <= parse_i32_spec(field(b, start, start + 2)).unwrap() <= 99,
        parse_i64_spec(field(b, start, start + 2)) is Some ==> -9 <= parse_i64_spec(field(b, start, start + 2)).unwrap() <= 99,
{
    let f = field(b, start, start + 2);
    if signed_decimal(f) is Some {
        lemma_signed_decimal_bound(f);
        reveal_with_fuel(pow10, 3);
    }
}

proof fn lemma_four_byte_field(b: Seq<u8>)
    requires
        4 <= b.len(),
    ensures
        parse_i64_spec(field(b, 0, 4)) is Some ==> -999 <= parse_i64_spec(field(b, 0, 4)).unwrap() <= 9999,
        parse_i32_spec(field(b, 0, 4)) is Some ==> -999 <= parse_i32_spec(field(b, 0, 4)).unwrap() <= 9999,
{
    let f = field(b, 0, 4);
    if signed_decimal(f) is Some {
        lemma_signed_decimal_bound(f);
        reveal_with_fuel(pow10, 5);
    }
}

/// Whether `parse_base_dt_micros` would slice `s` inside a character.
pub fn base_dt_slicing_panics(s: &str) -> (r: bool)
    ensures
        r == base_dt_slicing_panics_spec(trimmed_bytes(s@)),
{
    let t = trim_str(s);
    let b = t.as_bytes();
    if b.len() < 19 {
        return false;
    }
    if !on_boundary_exec(b, 4) {
        return true;
    }
    if parse_i64_decimal(b, 0, 4).is_none() {
        return false;
    }
    if !on_boundary_exec(b, 5) || !on_boundary_exec(b, 7) {
        return true;
    }
    if parse_i32_decimal(b, 5, 7).is_none() {
        return false;
    }
    if !on_boundary_exec(b, 8) || !on_boundary_exec(b, 10) {
        return true;
    }
    if parse_i32_decimal(b, 8, 10).is_none() {
        return false;
    }
    if !on_boundary_exec(b, 11) || !on_boundary_exec(b, 13) {
        return true;
    }
    if parse_i32_decimal(b, 11, 13).is_none() {
        return false;
    }
    if !on_boundary_exec(b, 14) || !on_boundary_exec(b, 16) {
        return true;
    }
    if parse_i32_decimal(b, 14, 16).is_none() {
        return false;
    }
    if !on_boundary_exec(b, 17) || !on_boundary_exec(b, 19) {
        return true;
    }
    if parse_i32_decimal(b, 17, 19).is_none() {
        return false;
    }
    b.len() > 19 && (b[19] == 43 || b[19] == 45) && (b.len() < 22 || !on_boundary_exec(b, 22))
}

/// Microseconds since the Unix epoch of an AIS `BaseDateTime` text such as
/// `2024-01-01T00:00:00`, shifted by an optional `+hh`/`-hh` offset.
pub fn parse_base_dt_micros(s: &str) -> (r: Result<i64, TimestampError>)
    requires
        !base_dt_slicing_panics_spec(trimmed_bytes(s@)),
    ensures
        r == base_dt_spec(trimmed_bytes(s@)),
{
    let t = trim_str(s);
    let b = t.as_bytes();
    let ghost bs = b@;
    if b.len() < 19 {
        return Err(TimestampError::TooShort);
    }
    proof {
        lemma_four_byte_field(bs);
        lemma_two_byte_field(bs, 5);
        lemma_two_byte_field(bs, 8);
        lemma_two_byte_field(bs, 11);
        lemma_two_byte_field(bs, 14);
        lemma_two_byte_field(bs, 17);
    }
    let year = match parse_i64_decimal(b, 0, 4) {
        Some(v) => v,
        None => {
            return Err(TimestampError::InvalidNumber);
        },
    };
    let month = match parse_i32_decimal(b, 5, 7) {
        Some(v) => v,
        None => {
            return Err(TimestampError::InvalidNumber);
        },
    };
    let day = match parse_i32_decimal(b, 8, 10) {
        Some(v) => v,
        None => {
            return Err(TimestampError::InvalidNumber);
        },
    };
    let hour = match parse_i32_decimal(b, 11, 13) {
        Some(v) => v,
        None => {
            return Err(TimestampError::InvalidNumber);
        },
    };
    let min = match parse_i32_decimal(b, 14, 16) {
        Some(v) => v,
        None => {
            return Err(TimestampError::InvalidNumber);
        },
    };
    let sec = match parse_i32_decimal(b, 17, 19) {
        Some(v) => v,
        None => {
            return Err(TimestampError::InvalidNumber);
        },
    };
    let offset_secs: i64 = if b.len() > 19 {
        if b[19] == 43 || b[19] == 45 {
            let sign: i64 = if b[19] == 45 { -1 } else { 1 };
            proof {
                lemma_two_byte_field(bs, 20);
            }
            let tz_hours = match parse_i64_decimal(b, 20, 22) {
                Some(v) => v,
                None => {
                    return Err(TimestampError::InvalidNumber);
                },
            };
            sign * tz_hours * 3600
        } else {
            0
        }
    } else {
        0
    };
    proof {
        lemma_small_datetime_fits(year as int, month as int, day as int, hour as int, min as int, sec as int);
        lemma_days_bound(year as int, month as int, day as int);
    }
    let micros = datetime_to_micros(year, month, day, hour, min, sec);
    Ok(micros - offset_secs * 1_000_000)
}

/// The fields of a query bound `YYYY?MM?DD?hh` are all integers and slicing
/// them stays on character boundaries.
pub open spec fn hour_stamp_valid_spec(b: Seq<u8>) -> bool {
    &&& b.len() >= 13
    &&& on_boundary(b, 4) && on_boundary(b, 5) && on_boundary(b, 7) && on_boundary(b, 8)
    &&& on_boundary(b, 10) && on_boundary(b, 11) && on_boundary(b, 13)
    &&& parse_i32_spec(field(b, 0, 4)) is Some
    &&& parse_i32_spec(field(b, 5, 7)) is Some
    &&& parse_i32_spec(field(b, 8, 10)) is Some
    &&& parse_i64_spec(field(b, 11, 13)) is Some
}

/// Microseconds of the start of the hour named by a query bound `YYYY?MM?DD?hh`.
pub open spec fn hour_us_spec(b: Seq<u8>) -> int {
    (days_from_civil_spec(
        parse_i32_spec(field(b, 0, 4)).unwrap() as int,
        parse_i32_spec(field(b, 5, 7)).unwrap() as int,
        parse_i32_spec(field(b, 8, 10)).unwrap() as int,
    ) * 86_400 + parse_i64_spec(field(b, 11, 13)).unwrap() * 3_600) * 1_000_000
}

/// Whether `parse_hour_us` accepts `value`.
pub fn hour_stamp_valid(value: &str) -> (r: bool)
    ensures
        r == hour_stamp_valid_spec(encode_utf8(value@)),
{
    let b = value.as_bytes();
    b.len() >= 13 && on_boundary_exec(b, 4) && on_boundary_exec(b, 5) && on_boundary_exec(b, 7)
        && on_boundary_exec(b, 8) && on_boundary_exec(b, 10) && on_boundary_exec(b, 11)
        && on_boundary_exec(b, 13) && parse_i32_decimal(b, 0, 4).is_some()
        && parse_i32_decimal(b, 5, 7).is_some() && parse_i32_decimal(b, 8, 10).is_some()
        && parse_i64_decimal(b, 11, 13).is_some()
}

/// Microseconds since the Unix epoch of a query bound such as `2024-10-20 04`.
pub fn parse_hour_us(value: &str) -> (r: i64)
    requires
        hour_stamp_valid_spec(encode_utf8(value@)),
    ensures
        r == hour_us_spec(encode_utf8(value@)),
{
    let b = value.as_bytes();
    proof {
        lemma_four_byte_field(b@);
        lemma_two_byte_field(b@, 5);
        lemma_two_byte_field(b@, 8);
        lemma_two_byte_field(b@, 11);
    }
    let year = parse_i32_decimal(b, 0, 4).unwrap();
    let month = parse_i32_decimal(b, 5, 7).unwrap();
    let day = parse_i32_decimal(b, 8, 10).unwrap();
    let hour = parse_i64_decimal(b, 11, 13).unwrap();
    proof {
        lemma_days_bound(year as int, month as int, day as int);
    }
    (day_number(year, month, day) * 86_400 + hour * 3_600) * 1_000_000
}

/// The bytes of `format!("{:04}-{:02}-{:02} {:02}", year, month, day, hour)`.
pub open spec fn hour_stamp_text(year: nat, month: nat, day: nat, hour: nat) -> Seq<u8> {
    zero_padded_text(year as int, 4) + seq![45u8] + zero_padded_text(month as int, 2) + seq![45u8]
        + zero_padded_text(day as int, 2) + seq![32u8] + zero_padded_text(hour as int, 2)
}

/// Law: a query bound written as `YYYY-MM-DD hh` with zero-padded fields is
/// accepted, and names the microsecond at which that hour starts.
pub proof fn lemma_hour_stamp_reads_back(year: nat, month: nat, day: nat, hour: nat)
    requires
        year <= 9999,
        month <= 99,
        day <= 99,
        hour <= 99,
    ensures
        hour_stamp_valid_spec(hour_stamp_text(year, month, day, hour)),
        hour_us_spec(hour_stamp_text(year, month, day, hour)) == (days_from_civil_spec(
            year as int,
            month as int,
            day as int,
        ) * 86_400 + hour * 3_600) * 1_000_000,
{
    reveal_with_fuel(pow10, 5);
    lemma_zero_padded_reads_back(year, 4);
    lemma_zero_padded_reads_back(month, 2);
    lemma_zero_padded_reads_back(day, 2);
    lemma_zero_padded_reads_back(hour, 2);
    let y = zero_padded_text(year as int, 4);
    let m = zero_padded_text(month as int, 2);
    let d = zero_padded_text(day as int, 2);
    let h = zero_padded_text(hour as int, 2);
    let t = hour_stamp_text(year, month, day, hour);
    assert(t.len() == 13);
    assert(field(t, 0, 4) =~= y);
    assert(field(t, 5, 7) =~= m);
    assert(field(t, 8, 10) =~= d);
    assert(field(t, 11, 13) =~= h);
    assert forall|i: int| 0 <= i < 13 implies #[trigger] t[i] < 128 by {
        if i < 4 {
            assert(t[i] == y[i] && is_digit(y[i]));
        } else if i == 4 || i == 7 || i == 10 {
        } else if i < 7 {
            assert(t[i] == m[i - 5] && is_digit(m[i - 5]));
        } else if i < 10 {
            assert(t[i] == d[i - 8] && is_digit(d[i - 8]));
        } else {
            assert(t[i] == h[i - 11] && is_digit(h[i - 11]));
        }
    }
    assert(t[4] < 128 && t[5] < 128 && t[7] < 128 && t[8] < 128 && t[10] < 128 && t[11] < 128);
}

/// The microsecond at which hour `hour` of day `day` of month `month` of
/// `year` starts.
pub open spec fn hour_start_us(year: int, month: int, day: int, hour: int) -> int {
    (days_from_civil_spec(year, month, day) * 86_400 + hour * 3_600) * 1_000_000
}

/// Text whose characters are the bytes of a zero-padded `YYYY-MM-DD hh` bound
/// is a valid query bound for that hour.
pub proof fn lemma_hour_text_valid(text: Seq<char>, year: nat, month: nat, day: nat, hour: nat)
    requires
        year <= 9999,
        month <= 99,
        day <= 99,
        hour <= 99,
        text == ascii_chars(hour_stamp_text(year, month, day, hour)),
    ensures
        hour_stamp_valid_spec(encode_utf8(text)),
        hour_us_spec(encode_utf8(text)) == hour_start_us(year as int, month as int, day as int, hour as int),
{
    lemma_hour_stamp_reads_back(year, month, day, hour);
    let t = hour_stamp_text(year, month, day, hour);
    assert forall|i: int| 0 <= i < t.len() implies #[trigger] t[i] < 128 by {
        lemma_hour_stamp_ascii(year, month, day, hour, i);
    }
    assert(is_ascii_chars(text));
    is_ascii_chars_encode_utf8(text);
    assert(encode_utf8(text) =~= t);
}

proof fn lemma_hour_stamp_ascii(year: nat, month: nat, day: nat, hour: nat, i: int)
    requires
        year <= 9999,
        month <= 99,
        day <= 99,
        hour <= 99,
        0 <= i < hour_stamp_text(year, month, day, hour).len(),
    ensures
        hour_stamp_text(year, month, day, hour)[i] < 128,
{
    reveal_with_fuel(pow10, 5);
    lemma_zero_padded_reads_back(year, 4);
    lemma_zero_padded_reads_back(month, 2);
    lemma_zero_padded_reads_back(day, 2);
    lemma_zero_padded_reads_back(hour, 2);
    let y = zero_padded_text(year as int, 4);
    let m = zero_padded_text(month as int, 2);
    let d = zero_padded_text(day as int, 2);
    let h = zero_padded_text(hour as int, 2);
    let t = hour_stamp_text(year, month, day, hour);
    if i < 4 {
        assert(t[i] == y[i] && is_digit(y[i]));
    } else if i == 4 || i == 7 || i == 10 {
    } else if i < 7 {
        assert(t[i] == m[i - 5] && is_digit(m[i - 5]));
    } else if i < 10 {
        assert(t[i] == d[i - 8] && is_digit(d[i - 8]));
    } else {
        assert(t[i] == h[i - 11] && is_digit(h[i - 11]));
    }
}

proof fn lemma_two_digit_text(v: nat)
    requires
        v <= 99,
    ensures
        zero_padded_text(v as int, 2) =~= seq![(48 + v / 10) as u8, (48 + v % 10) as u8],
{
    if v < 10 {
        assert(decimal_digits(v) =~= seq![(48 + v) as u8]);
        assert(zeros(1) =~= seq![48u8]);
    } else {
        assert(decimal_digits(v / 10) =~= seq![(48 + v / 10) as u8]);
        assert(decimal_digits(v) =~= seq![(48 + v / 10) as u8, (48 + v % 10) as u8]);
        assert(zeros(0) =~= Seq::<u8>::empty());
    }
}

/// A query bound `2024-MM-DD hh` given as text, with two-digit month, day and
/// hour, is valid and names the start of that hour of 2024.
pub proof fn lemma_hour_bound_2024(text: Seq<char>, month: nat, day: nat, hour: nat)
    requires
        month <= 99,
        day <= 99,
        hour <= 99,
        text =~= ascii_chars(
            seq![
                50u8, 48, 50, 52, 45,
                (48 + month / 10) as u8, (48 + month % 10) as u8, 45,
                (48 + day / 10) as u8, (48 + day % 10) as u8, 32,
                (48 + hour / 10) as u8, (48 + hour % 10) as u8,
            ],
        ),
    ensures
        hour_stamp_valid_spec(encode_utf8(text)),
        hour_us_spec(encode_utf8(text)) == hour_start_us(2024, month as int, day as int, hour as int),
{
    assert(zero_padded_text(2024, 4) =~= seq![50u8, 48, 50, 52]) by {
        reveal_with_fuel(decimal_digits, 5);
        assert(zeros(0) =~= Seq::<u8>::empty());
    }
    lemma_two_digit_text(month);
    lemma_two_digit_text(day);
    lemma_two_digit_text(hour);
    assert(hour_stamp_text(2024, month, day, hour) =~= seq![
        50u8, 48, 50, 52, 45,
        (48 + month / 10) as u8, (48 + month % 10) as u8, 45,
        (48 + day / 10) as u8, (48 + day % 10) as u8, 32,
        (48 + hour / 10) as u8, (48 + hour % 10) as u8,
    ]);
    lemma_hour_text_valid(text, 2024, month, day, hour);
}

} // verus!
